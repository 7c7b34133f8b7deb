//! The payload of a volume file: a cell count, then one byte per cell.

use vstd::prelude::*;
use vstd::arithmetic::div_mod::{lemma_div_denominator, lemma_fundamental_div_mod_converse};
use crate::grid::{Coord, Extent, LabelGrid, Volume};

verus! {

/// The four bytes of `n`, the least significant first.
pub open spec fn le_bytes(n: u32) -> Seq<u8> {
    seq![
        (n % 256) as u8,
        ((n / 256) % 256) as u8,
        ((n / 65536) % 256) as u8,
        (n / 16777216) as u8,
    ]
}

/// The cell that is written in place `i` of the payload: x runs fastest, z slowest.
pub open spec fn cell_in_place(extent: Extent, i: int) -> Coord {
    Coord {
        x: (i % (extent.width as int)) as usize,
        y: ((i / (extent.width as int)) % (extent.height as int)) as usize,
        z: (i / (extent.width * extent.height)) as usize,
    }
}

/// The place of the cell `c` in the payload.
pub open spec fn place_of(extent: Extent, c: Coord) -> int {
    c.x + extent.width * (c.y + extent.height * c.z)
}

/// The payload of `v`: the number of cells as four little-endian bytes, then
/// the byte of each cell's label, with x running fastest and z slowest.
pub open spec fn payload_bytes(v: Volume) -> Seq<u8> {
    le_bytes(v.extent.volume() as u32) + Seq::new(
        v.extent.volume() as nat,
        |i: int| v.label(cell_in_place(v.extent, i)).byte(),
    )
}

/// The text that `base64::encode` makes of `bytes`: their base64 form in the
/// standard alphabet, with padding.
pub uninterp spec fn base64_text(bytes: Seq<u8>) -> Seq<char>;

/// `byteorder::LittleEndian::write_u32`: writes `n` into the first four bytes
/// of the buffer, the least significant byte first, and leaves the rest. It
/// panics on a buffer of fewer than four bytes, which the precondition leaves out.
#[verifier::external_body]
fn write_u32_le(buf: &mut Vec<u8>, n: u32)
    requires
        old(buf)@.len() >= 4,
    ensures
        final(buf)@ == le_bytes(n) + old(buf)@.skip(4),
{
    <byteorder::LittleEndian as byteorder::ByteOrder>::write_u32(buf.as_mut_slice(), n);
}

/// `base64::encode`: the base64 text of the bytes.
#[verifier::external_body]
#[allow(deprecated)]
fn base64_encode(bytes: &Vec<u8>) -> (text: String)
    ensures
        text@ == base64_text(bytes@),
{
    base64::encode(bytes)
}

/// The cell in the place of a cell is that cell.
pub proof fn lemma_place(extent: Extent, c: Coord)
    requires
        extent.contains(c),
    ensures
        0 <= place_of(extent, c) < extent.volume(),
        cell_in_place(extent, place_of(extent, c)) == c,
{
    let w = extent.width as int;
    let h = extent.height as int;
    let d = extent.depth as int;
    let row = c.y + h * c.z;
    let i = place_of(extent, c);
    assert(0 <= row <= h * d - 1) by (nonlinear_arith)
        requires
            row == c.y + h * c.z,
            0 <= c.y < h,
            0 <= c.z < d,
    ;
    assert(0 <= w * row && c.x + w * row <= w * (h * d) - 1) by (nonlinear_arith)
        requires
            0 <= row <= h * d - 1,
            0 <= c.x < w,
    ;
    assert(w * (h * d) == w * h * d) by (nonlinear_arith);
    assert(i == row * w + c.x) by (nonlinear_arith)
        requires
            i == c.x + w * row,
    ;
    lemma_fundamental_div_mod_converse(i, w, row, c.x as int);
    assert(row == c.z * h + c.y) by (nonlinear_arith)
        requires
            row == c.y + h * c.z,
    ;
    lemma_fundamental_div_mod_converse(row, h, c.z as int, c.y as int);
    lemma_div_denominator(i, w, h);
}

/// The payload holds the byte of each cell in that cell's place, after the
/// four bytes of the count.
pub proof fn lemma_payload_layout(v: Volume, c: Coord)
    requires
        v.extent.contains(c),
    ensures
        payload_bytes(v).len() == 4 + v.extent.volume(),
        payload_bytes(v)[4 + place_of(v.extent, c)] == v.label(c).byte(),
{
    lemma_place(v.extent, c);
}

/// The payload of the grid, or `None` where the number of cells does not fit
/// the four bytes of the count.
pub fn payload(grid: &LabelGrid) -> (r: Option<Vec<u8>>)
    ensures
        r is Some <==> grid@.extent.volume() <= u32::MAX,
        r matches Some(bytes) ==> bytes@ == payload_bytes(grid@),
{
    let extent = grid.extent();
    let count = grid.cell_count();
    if count > u32::MAX as usize {
        return None;
    }
    let mut bytes: Vec<u8> = Vec::new();
    bytes.push(0);
    bytes.push(0);
    bytes.push(0);
    bytes.push(0);
    write_u32_le(&mut bytes, count as u32);
    let ghost header = le_bytes(count as u32);
    assert(bytes@ =~= header);
    assert(extent.width * (extent.height * 0) == 0) by (nonlinear_arith);
    let mut z: usize = 0;
    while z < extent.depth
        invariant
            extent == grid@.extent,
            count == extent.volume(),
            z <= extent.depth,
            header.len() == 4,
            bytes@.len() == 4 + extent.width * (extent.height * z),
            bytes@.len() <= 4 + count,
            forall|i: int| 0 <= i < 4 ==> bytes@[i] == header[i],
            forall|i: int|
                0 <= i < bytes@.len() - 4 ==> bytes@[4 + i] == grid@.label(
                    cell_in_place(extent, i),
                ).byte(),
        decreases extent.depth - z,
    {
        let mut y: usize = 0;
        while y < extent.height
            invariant
                extent == grid@.extent,
                count == extent.volume(),
                z < extent.depth,
                y <= extent.height,
                header.len() == 4,
                bytes@.len() == 4 + extent.width * (y + extent.height * z),
                bytes@.len() <= 4 + count,
                forall|i: int| 0 <= i < 4 ==> bytes@[i] == header[i],
                forall|i: int|
                    0 <= i < bytes@.len() - 4 ==> bytes@[4 + i] == grid@.label(
                        cell_in_place(extent, i),
                    ).byte(),
            decreases extent.height - y,
        {
            let mut x: usize = 0;
            while x < extent.width
                invariant
                    extent == grid@.extent,
                    count == extent.volume(),
                    z < extent.depth,
                    y < extent.height,
                    x <= extent.width,
                    header.len() == 4,
                    bytes@.len() == 4 + x + extent.width * (y + extent.height * z),
                    bytes@.len() <= 4 + count,
                    forall|i: int| 0 <= i < 4 ==> bytes@[i] == header[i],
                    forall|i: int|
                        0 <= i < bytes@.len() - 4 ==> bytes@[4 + i] == grid@.label(
                            cell_in_place(extent, i),
                        ).byte(),
                decreases extent.width - x,
            {
                let c = Coord { x, y, z };
                proof {
                    lemma_place(extent, c);
                }
                bytes.push(grid.get(c).code());
                x += 1;
            }
            proof {
                assert(extent.width + extent.width * (y + extent.height * z) == extent.width * ((y
                    + 1) + extent.height * z)) by (nonlinear_arith);
            }
            y += 1;
        }
        proof {
            assert(extent.width * (extent.height + extent.height * z) == extent.width * (
            extent.height * (z + 1))) by (nonlinear_arith);
        }
        z += 1;
    }
    proof {
        assert(extent.width * (extent.height * extent.depth) == extent.volume())
            by (nonlinear_arith)
            requires
                extent.volume() == extent.width * extent.height * extent.depth,
        ;
        assert(bytes@ =~= payload_bytes(grid@));
    }
    Some(bytes)
}

/// The payload of the grid as base64 text, or `None` where the number of
/// cells does not fit the four bytes of the count.
pub fn encode_volume(grid: &LabelGrid) -> (r: Option<String>)
    ensures
        r is Some <==> grid@.extent.volume() <= u32::MAX,
        r matches Some(text) ==> text@ == base64_text(payload_bytes(grid@)),
{
    match payload(grid) {
        Some(bytes) => Some(base64_encode(&bytes)),
        None => None,
    }
}

} // verus!
