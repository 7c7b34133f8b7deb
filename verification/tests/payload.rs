use voxel_territory::grid::{Coord, Extent, LabelGrid};
use voxel_territory::label::{Color, Label};
use voxel_territory::payload::{encode_volume, payload};

fn at(x: usize, y: usize, z: usize) -> Coord {
    Coord { x, y, z }
}

const ALL: [Label; 10] = [
    Label::RedAnchor,
    Label::RedArea,
    Label::RedPocket,
    Label::BlueAnchor,
    Label::BlueArea,
    Label::BluePocket,
    Label::Barrier,
    Label::Undetermined,
    Label::RedForbidden,
    Label::BlueForbidden,
];

#[test]
fn label_codes_are_stable() {
    for (code, label) in ALL.iter().enumerate() {
        assert_eq!(label.code() as usize, code);
    }
}

#[test]
fn label_families() {
    assert_eq!(Label::anchor(Color::Red), Label::RedAnchor);
    assert_eq!(Label::anchor(Color::Blue), Label::BlueAnchor);
    assert_eq!(Label::area(Color::Red), Label::RedArea);
    assert_eq!(Label::area(Color::Blue), Label::BlueArea);
    assert_eq!(Label::pocket(Color::Red), Label::RedPocket);
    assert_eq!(Label::pocket(Color::Blue), Label::BluePocket);
    assert_eq!(Label::forbidden(Color::Red), Label::RedForbidden);
    assert_eq!(Label::forbidden(Color::Blue), Label::BlueForbidden);
    assert_eq!(Color::Red.opposite(), Color::Blue);
    assert_eq!(Color::Blue.opposite(), Color::Red);
    for label in ALL {
        let fixed = matches!(label, Label::RedAnchor | Label::BlueAnchor | Label::Barrier);
        let open = matches!(label, Label::Undetermined | Label::RedArea | Label::BlueArea);
        assert_eq!(label.fixed(), fixed);
        assert_eq!(label.open(), open);
    }
    assert_eq!(Label::RedAnchor.seed_color(), Some(Color::Red));
    assert_eq!(Label::BlueAnchor.seed_color(), Some(Color::Blue));
    assert_eq!(Label::RedArea.seed_color(), None);
}

#[test]
fn payload_starts_with_the_cell_count() {
    let grid =
        LabelGrid::new(Extent { width: 5, height: 13, depth: 4 }, Label::RedAnchor).unwrap();
    let bytes = payload(&grid).unwrap();
    assert_eq!(bytes.len(), 4 + 260);
    assert_eq!(&bytes[..4], &[4, 1, 0, 0]);
    assert!(bytes[4..].iter().all(|b| *b == 0));
}

#[test]
fn payload_header_is_little_endian() {
    let grid =
        LabelGrid::new(Extent { width: 256, height: 3, depth: 100 }, Label::Barrier).unwrap();
    let bytes = payload(&grid).unwrap();
    assert_eq!(&bytes[..4], &[0x00, 0x2c, 0x01, 0x00]);
    assert_eq!(bytes.len(), 4 + 76800);
}

#[test]
fn payload_walks_x_fastest_and_z_slowest() {
    let extent = Extent { width: 2, height: 3, depth: 2 };
    let mut grid = LabelGrid::new(extent, Label::Undetermined).unwrap();
    grid.set(at(1, 0, 0), Label::RedAnchor);
    grid.set(at(0, 1, 0), Label::RedArea);
    grid.set(at(0, 0, 1), Label::BluePocket);
    grid.set(at(1, 2, 1), Label::BlueForbidden);
    let bytes = payload(&grid).unwrap();
    assert_eq!(bytes, vec![12, 0, 0, 0, 7, 0, 1, 7, 7, 7, 5, 7, 7, 7, 7, 9]);
    for z in 0..2 {
        for y in 0..3 {
            for x in 0..2 {
                assert_eq!(bytes[4 + x + 2 * (y + 3 * z)], grid.get(at(x, y, z)).code());
            }
        }
    }
}

#[test]
fn payload_of_an_empty_grid_is_its_header() {
    let grid = LabelGrid::new(Extent { width: 0, height: 4, depth: 4 }, Label::Barrier).unwrap();
    assert_eq!(payload(&grid).unwrap(), vec![0, 0, 0, 0]);
    assert_eq!(encode_volume(&grid).unwrap(), "AAAAAA==");
}

#[test]
fn encoded_volume_is_base64_of_the_payload() {
    let grid =
        LabelGrid::new(Extent { width: 1, height: 1, depth: 1 }, Label::Undetermined).unwrap();
    assert_eq!(payload(&grid).unwrap(), vec![1, 0, 0, 0, 7]);
    assert_eq!(encode_volume(&grid).unwrap(), "AQAAAAc=");
    let mut pair =
        LabelGrid::new(Extent { width: 2, height: 1, depth: 1 }, Label::BlueForbidden).unwrap();
    pair.set(at(0, 0, 0), Label::RedForbidden);
    assert_eq!(payload(&pair).unwrap(), vec![2, 0, 0, 0, 8, 9]);
    assert_eq!(encode_volume(&pair).unwrap(), "AgAAAAgJ");
}
