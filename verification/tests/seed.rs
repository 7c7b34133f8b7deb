use voxel_territory::grid::{Coord, Extent, LabelGrid};
use voxel_territory::label::{Color, Label};
use voxel_territory::seed::{apply_cut_path, apply_path, seal_ends, Mask, ALPHA_THRESHOLD, MARGIN};

fn at(x: usize, y: usize, z: usize) -> Coord {
    Coord { x, y, z }
}

fn column_of(grid: &LabelGrid, x: usize, z: usize) -> Vec<Label> {
    (0..grid.extent().height).map(|y| grid.get(at(x, y, z))).collect()
}

const INK: u8 = 255;

#[test]
fn mask_needs_one_value_per_pixel() {
    assert!(Mask::from_alpha(2, 3, vec![0; 6]).is_some());
    assert!(Mask::from_alpha(2, 3, vec![0; 5]).is_none());
    assert!(Mask::from_alpha(2, 3, vec![0; 7]).is_none());
    assert!(Mask::from_alpha(usize::MAX, 2, Vec::new()).is_none());
    let empty = Mask::from_alpha(0, 5, Vec::new()).unwrap();
    assert_eq!(empty.width(), 0);
    assert_eq!(empty.height(), 5);
}

#[test]
fn ink_is_opacity_above_the_threshold() {
    assert_eq!(ALPHA_THRESHOLD, 128);
    let mask = Mask::from_alpha(3, 2, vec![0, 128, 129, 255, 127, 1]).unwrap();
    assert!(!mask.is_ink(0, 0));
    assert!(!mask.is_ink(1, 0));
    assert!(mask.is_ink(2, 0));
    assert!(mask.is_ink(0, 1));
    assert!(!mask.is_ink(1, 1));
    assert!(!mask.is_ink(2, 1));
}

#[test]
fn wire_splits_a_column_into_blue_barrier_and_red() {
    assert_eq!(MARGIN, 2);
    let mask = Mask::from_alpha(1, 5, vec![0, INK, INK, 0, 0]).unwrap();
    let mut grid =
        LabelGrid::new(Extent { width: 1, height: 9, depth: 1 }, Label::Undetermined).unwrap();
    apply_path(&mut grid, &mask, 0);
    assert_eq!(
        column_of(&grid, 0, 0),
        vec![
            Label::BlueAnchor,
            Label::BlueAnchor,
            Label::BlueAnchor,
            Label::Barrier,
            Label::Barrier,
            Label::RedAnchor,
            Label::RedAnchor,
            Label::RedAnchor,
            Label::RedAnchor
        ]
    );
}

#[test]
fn wire_closes_the_gaps_between_its_ink() {
    let mask = Mask::from_alpha(1, 7, vec![INK, 0, 0, INK, 0, INK, 0]).unwrap();
    let mut grid =
        LabelGrid::new(Extent { width: 1, height: 11, depth: 1 }, Label::Undetermined).unwrap();
    apply_path(&mut grid, &mask, 0);
    let mut expected = vec![Label::BlueAnchor; 2];
    expected.extend(vec![Label::Barrier; 6]);
    expected.extend(vec![Label::RedAnchor; 3]);
    assert_eq!(column_of(&grid, 0, 0), expected);
}

#[test]
fn a_column_without_ink_is_all_blue() {
    let mask = Mask::from_alpha(2, 2, vec![0, INK, 0, 128]).unwrap();
    let mut grid =
        LabelGrid::new(Extent { width: 2, height: 6, depth: 1 }, Label::Undetermined).unwrap();
    apply_path(&mut grid, &mask, 0);
    assert_eq!(column_of(&grid, 0, 0), vec![Label::BlueAnchor; 6]);
    assert_eq!(
        column_of(&grid, 1, 0),
        vec![
            Label::BlueAnchor,
            Label::BlueAnchor,
            Label::Barrier,
            Label::RedAnchor,
            Label::RedAnchor,
            Label::RedAnchor
        ]
    );
}

#[test]
fn wire_is_stamped_into_its_own_layer_only() {
    let mask = Mask::from_alpha(1, 1, vec![INK]).unwrap();
    let mut grid =
        LabelGrid::new(Extent { width: 1, height: 5, depth: 3 }, Label::Undetermined).unwrap();
    apply_path(&mut grid, &mask, 1);
    assert_eq!(column_of(&grid, 0, 0), vec![Label::Undetermined; 5]);
    assert_eq!(column_of(&grid, 0, 2), vec![Label::Undetermined; 5]);
    assert_eq!(
        column_of(&grid, 0, 1),
        vec![
            Label::BlueAnchor,
            Label::BlueAnchor,
            Label::Barrier,
            Label::RedAnchor,
            Label::RedAnchor
        ]
    );
}

#[test]
fn cut_forbids_the_cells_under_its_ink_on_every_level() {
    let extent = Extent { width: 2, height: 3, depth: 2 };
    let mut grid = LabelGrid::new(extent, Label::Undetermined).unwrap();
    grid.set(at(1, 0, 0), Label::Barrier);
    grid.set(at(1, 1, 0), Label::BlueForbidden);
    grid.set(at(1, 2, 0), Label::BlueAnchor);
    let mask = Mask::from_alpha(2, 2, vec![0, INK, 0, 0]).unwrap();
    apply_cut_path(&mut grid, &mask, Color::Red);
    assert_eq!(
        column_of(&grid, 1, 0),
        vec![Label::Barrier, Label::Barrier, Label::RedForbidden]
    );
    assert_eq!(column_of(&grid, 0, 0), vec![Label::Undetermined; 3]);
    assert_eq!(column_of(&grid, 1, 1), vec![Label::Undetermined; 3]);
    assert_eq!(column_of(&grid, 0, 1), vec![Label::Undetermined; 3]);
}

#[test]
fn cut_for_blue_mirrors_cut_for_red() {
    let extent = Extent { width: 1, height: 4, depth: 1 };
    let mut grid = LabelGrid::new(extent, Label::Undetermined).unwrap();
    grid.set(at(0, 0, 0), Label::Barrier);
    grid.set(at(0, 1, 0), Label::RedForbidden);
    grid.set(at(0, 2, 0), Label::BlueForbidden);
    let mask = Mask::from_alpha(1, 1, vec![200]).unwrap();
    apply_cut_path(&mut grid, &mask, Color::Blue);
    assert_eq!(
        column_of(&grid, 0, 0),
        vec![Label::Barrier, Label::Barrier, Label::BlueForbidden, Label::BlueForbidden]
    );
}

#[test]
fn crossing_cuts_make_barrier() {
    let extent = Extent { width: 1, height: 2, depth: 1 };
    let mut grid = LabelGrid::new(extent, Label::Undetermined).unwrap();
    let mask = Mask::from_alpha(1, 1, vec![INK]).unwrap();
    apply_cut_path(&mut grid, &mask, Color::Red);
    assert_eq!(column_of(&grid, 0, 0), vec![Label::RedForbidden; 2]);
    apply_cut_path(&mut grid, &mask, Color::Blue);
    assert_eq!(column_of(&grid, 0, 0), vec![Label::Barrier; 2]);
}

#[test]
fn ends_are_sealed_with_anchors() {
    let extent = Extent { width: 2, height: 6, depth: 2 };
    let mut grid = LabelGrid::new(extent, Label::Barrier).unwrap();
    seal_ends(&mut grid);
    for x in 0..2 {
        for z in 0..2 {
            assert_eq!(
                column_of(&grid, x, z),
                vec![
                    Label::BlueAnchor,
                    Label::BlueAnchor,
                    Label::Barrier,
                    Label::Barrier,
                    Label::RedAnchor,
                    Label::RedAnchor
                ]
            );
        }
    }
}

#[test]
fn red_end_wins_where_the_ends_overlap() {
    let extent = Extent { width: 1, height: 3, depth: 1 };
    let mut grid = LabelGrid::new(extent, Label::Undetermined).unwrap();
    seal_ends(&mut grid);
    assert_eq!(
        column_of(&grid, 0, 0),
        vec![Label::BlueAnchor, Label::RedAnchor, Label::RedAnchor]
    );
}
