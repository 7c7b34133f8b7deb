use voxel_territory::classify::classify;
use voxel_territory::grid::{Coord, Extent, LabelGrid};
use voxel_territory::label::{Color, Label};
use voxel_territory::postfill::Limits;
use voxel_territory::refine::{Refinement, Step};
use voxel_territory::signs::{Sign, SignField};
use voxel_territory::wave::Job;

fn at(x: usize, y: usize, z: usize) -> Coord {
    Coord { x, y, z }
}

fn column(labels: &[Label]) -> LabelGrid {
    let extent = Extent { width: 1, height: labels.len(), depth: 1 };
    let mut grid = LabelGrid::new(extent, Label::Undetermined).unwrap();
    for (y, label) in labels.iter().enumerate() {
        grid.set(at(0, y, 0), *label);
    }
    grid
}

fn column_signs(signs: &[Sign]) -> SignField {
    let extent = Extent { width: 1, height: signs.len(), depth: 1 };
    SignField::from_cells(extent, signs.to_vec()).unwrap()
}

fn labels_of(grid: &LabelGrid) -> Vec<Label> {
    let extent = grid.extent();
    let mut all = Vec::new();
    for x in 0..extent.width {
        for y in 0..extent.height {
            for z in 0..extent.depth {
                all.push(grid.get(at(x, y, z)));
            }
        }
    }
    all
}

#[test]
fn sign_field_holds_cells_with_z_fastest() {
    let extent = Extent { width: 2, height: 2, depth: 2 };
    let mut cells = vec![Sign::Zero; 8];
    cells[(1 * 2 + 0) * 2 + 1] = Sign::Negative;
    cells[(0 * 2 + 1) * 2 + 0] = Sign::Positive;
    let field = SignField::from_cells(extent, cells).unwrap();
    assert_eq!(field.extent(), extent);
    assert_eq!(field.get(at(1, 0, 1)), Sign::Negative);
    assert_eq!(field.get(at(0, 1, 0)), Sign::Positive);
    assert_eq!(field.get(at(1, 1, 1)), Sign::Zero);
}

#[test]
fn sign_field_needs_one_sign_per_cell() {
    let extent = Extent { width: 2, height: 2, depth: 2 };
    assert!(SignField::from_cells(extent, vec![Sign::Zero; 7]).is_none());
    assert!(SignField::from_cells(extent, vec![Sign::Zero; 9]).is_none());
    let huge = Extent { width: usize::MAX, height: 2, depth: 1 };
    assert!(SignField::from_cells(huge, Vec::new()).is_none());
    assert!(SignField::uniform(huge, Sign::Zero).is_none());
}

#[test]
fn uniform_sign_field_and_replacement() {
    let extent = Extent { width: 3, height: 2, depth: 2 };
    let field = SignField::uniform(extent, Sign::Positive).unwrap();
    let field = field.with_sign(at(2, 1, 0), Sign::Negative);
    assert_eq!(field.get(at(2, 1, 0)), Sign::Negative);
    assert_eq!(field.get(at(2, 1, 1)), Sign::Positive);
    assert_eq!(field.get(at(0, 0, 0)), Sign::Positive);
}

#[test]
fn cell_count_is_the_product_or_nothing() {
    assert_eq!(Extent { width: 150, height: 40, depth: 50 }.count(), Some(300000));
    assert_eq!(Extent { width: usize::MAX, height: 0, depth: 9 }.count(), Some(0));
    assert_eq!(Extent { width: usize::MAX, height: 2, depth: 1 }.count(), None);
}

#[test]
fn ties_go_to_blue() {
    let mut grid = column(&[Label::Undetermined, Label::RedArea, Label::BlueArea]);
    classify(&mut grid, &column_signs(&[Sign::Zero, Sign::Zero, Sign::Zero]));
    assert_eq!(labels_of(&grid), vec![Label::BlueArea, Label::BlueArea, Label::BlueArea]);
}

#[test]
fn positive_goes_to_blue_and_negative_to_red() {
    let mut grid = column(&[Label::Undetermined, Label::Undetermined]);
    classify(&mut grid, &column_signs(&[Sign::Positive, Sign::Negative]));
    assert_eq!(labels_of(&grid), vec![Label::BlueArea, Label::RedArea]);
}

#[test]
fn a_negative_cell_turns_the_rest_of_the_column_red() {
    let mut grid = column(&[
        Label::Undetermined,
        Label::Undetermined,
        Label::Undetermined,
        Label::BlueArea,
    ]);
    classify(
        &mut grid,
        &column_signs(&[Sign::Positive, Sign::Negative, Sign::Positive, Sign::Positive]),
    );
    assert_eq!(
        labels_of(&grid),
        vec![Label::BlueArea, Label::RedArea, Label::RedArea, Label::RedArea]
    );
}

#[test]
fn red_anchor_and_barrier_turn_the_column_red() {
    for gate in [Label::RedAnchor, Label::Barrier] {
        let mut grid = column(&[Label::Undetermined, gate, Label::Undetermined]);
        classify(&mut grid, &column_signs(&[Sign::Positive, Sign::Positive, Sign::Positive]));
        assert_eq!(labels_of(&grid), vec![Label::BlueArea, gate, Label::RedArea]);
    }
}

#[test]
fn other_closed_cells_do_not_turn_the_column() {
    for closed in [
        Label::BlueAnchor,
        Label::RedPocket,
        Label::BluePocket,
        Label::RedForbidden,
        Label::BlueForbidden,
    ] {
        let mut grid = column(&[Label::Undetermined, closed, Label::Undetermined]);
        classify(&mut grid, &column_signs(&[Sign::Positive, Sign::Negative, Sign::Zero]));
        assert_eq!(labels_of(&grid), vec![Label::BlueArea, closed, Label::BlueArea]);
    }
}

#[test]
fn barrier_column_keeps_its_anchors_whatever_the_influence() {
    let start = [
        Label::BlueAnchor,
        Label::BlueAnchor,
        Label::Barrier,
        Label::RedAnchor,
        Label::RedAnchor,
    ];
    for sign in [Sign::Negative, Sign::Zero, Sign::Positive] {
        let mut grid = column(&start);
        classify(&mut grid, &column_signs(&[sign; 5]));
        assert_eq!(labels_of(&grid), start.to_vec());
    }
}

#[test]
fn open_cells_resolve_blue_above_a_barrier_and_red_below() {
    let start = [
        Label::BlueAnchor,
        Label::Undetermined,
        Label::Barrier,
        Label::Undetermined,
        Label::RedAnchor,
    ];
    for below in [Sign::Negative, Sign::Zero, Sign::Positive] {
        let mut grid = column(&start);
        classify(
            &mut grid,
            &column_signs(&[Sign::Positive, Sign::Positive, Sign::Positive, below, below]),
        );
        assert_eq!(
            labels_of(&grid),
            vec![
                Label::BlueAnchor,
                Label::BlueArea,
                Label::Barrier,
                Label::RedArea,
                Label::RedAnchor
            ]
        );
    }
}

#[test]
fn columns_are_classified_independently() {
    let extent = Extent { width: 2, height: 2, depth: 2 };
    let mut grid = LabelGrid::new(extent, Label::Undetermined).unwrap();
    let signs = SignField::uniform(extent, Sign::Positive)
        .unwrap()
        .with_sign(at(1, 0, 0), Sign::Negative);
    classify(&mut grid, &signs);
    assert_eq!(grid.get(at(1, 0, 0)), Label::RedArea);
    assert_eq!(grid.get(at(1, 1, 0)), Label::RedArea);
    assert_eq!(grid.get(at(1, 0, 1)), Label::BlueArea);
    assert_eq!(grid.get(at(1, 1, 1)), Label::BlueArea);
    assert_eq!(grid.get(at(0, 0, 0)), Label::BlueArea);
    assert_eq!(grid.get(at(0, 1, 0)), Label::BlueArea);
}

#[test]
fn no_cell_stays_undetermined_after_a_pass() {
    let extent = Extent { width: 3, height: 4, depth: 2 };
    let mut grid = LabelGrid::new(extent, Label::Undetermined).unwrap();
    grid.set(at(1, 2, 1), Label::Barrier);
    grid.set(at(0, 0, 0), Label::BlueAnchor);
    let signs =
        SignField::uniform(extent, Sign::Zero).unwrap().with_sign(at(2, 1, 0), Sign::Negative);
    classify(&mut grid, &signs);
    assert!(labels_of(&grid).iter().all(|l| *l != Label::Undetermined));
}

#[test]
fn red_runs_to_the_end_of_the_column_among_open_cells() {
    let start = [
        Label::Undetermined,
        Label::Undetermined,
        Label::BlueForbidden,
        Label::Undetermined,
        Label::BlueAnchor,
        Label::BlueArea,
    ];
    let mut grid = column(&start);
    classify(
        &mut grid,
        &column_signs(&[
            Sign::Zero,
            Sign::Negative,
            Sign::Positive,
            Sign::Positive,
            Sign::Positive,
            Sign::Positive,
        ]),
    );
    let after = labels_of(&grid);
    assert_eq!(
        after,
        vec![
            Label::BlueArea,
            Label::RedArea,
            Label::BlueForbidden,
            Label::RedArea,
            Label::BlueAnchor,
            Label::RedArea
        ]
    );
    for y in 2..6 {
        if start[y] == Label::Undetermined || start[y] == Label::RedArea || start[y] == Label::BlueArea
        {
            assert_eq!(after[y], Label::RedArea);
        }
    }
}

#[test]
fn a_second_pass_leaves_anchors_and_barrier_alone() {
    let start = [
        Label::BlueAnchor,
        Label::Undetermined,
        Label::Barrier,
        Label::Undetermined,
        Label::RedAnchor,
    ];
    let mut grid = column(&start);
    classify(&mut grid, &column_signs(&[Sign::Negative; 5]));
    classify(&mut grid, &column_signs(&[Sign::Positive; 5]));
    classify(&mut grid, &column_signs(&[Sign::Zero; 5]));
    let after = labels_of(&grid);
    assert_eq!(after[0], Label::BlueAnchor);
    assert_eq!(after[2], Label::Barrier);
    assert_eq!(after[4], Label::RedAnchor);
    assert_eq!(after[1], Label::BlueArea);
    assert_eq!(after[3], Label::RedArea);
}

#[test]
fn refinement_hands_out_jobs_until_its_passes_are_done() {
    let grid = column(&[Label::BlueAnchor, Label::Undetermined, Label::RedAnchor]);
    let mut run = Refinement::new(grid, 2);
    assert_eq!(run.remaining(), 2);
    for left in [1, 0] {
        match run.next() {
            Step::Propagate(jobs) => assert_eq!(
                jobs,
                vec![
                    Job { origin: at(0, 0, 0), color: Color::Blue },
                    Job { origin: at(0, 2, 0), color: Color::Red },
                ]
            ),
            Step::Finished => panic!("passes are left"),
        }
        run.complete_pass(&column_signs(&[Sign::Zero, Sign::Negative, Sign::Zero]));
        assert_eq!(run.remaining(), left);
        assert_eq!(run.grid().get(at(0, 1, 0)), Label::RedArea);
    }
    assert!(matches!(run.next(), Step::Finished));
    let grid = run.into_grid();
    assert_eq!(labels_of(&grid), vec![Label::BlueAnchor, Label::RedArea, Label::RedAnchor]);
}

#[test]
fn finished_refinement_ends_with_postfill() {
    let extent = Extent { width: 2, height: 3, depth: 1 };
    let mut grid = LabelGrid::new(extent, Label::Undetermined).unwrap();
    grid.set(at(0, 0, 0), Label::BlueAnchor);
    grid.set(at(1, 0, 0), Label::BlueAnchor);
    grid.set(at(0, 1, 0), Label::RedForbidden);
    grid.set(at(0, 2, 0), Label::RedAnchor);
    grid.set(at(1, 2, 0), Label::RedAnchor);
    let mut run = Refinement::new(grid, 1);
    run.complete_pass(&SignField::uniform(extent, Sign::Positive).unwrap());
    let grid = run.finish(Limits { max_distance: 5, max_other: 2 });
    assert_eq!(grid.get(at(1, 1, 0)), Label::BlueArea);
    assert_eq!(grid.get(at(0, 1, 0)), Label::BluePocket);
}

#[test]
fn refinement_without_passes_is_finished_at_once() {
    let grid = column(&[Label::BlueAnchor, Label::Undetermined]);
    let run = Refinement::new(grid, 0);
    assert!(matches!(run.next(), Step::Finished));
    assert_eq!(run.into_grid().get(at(0, 1, 0)), Label::Undetermined);
}
