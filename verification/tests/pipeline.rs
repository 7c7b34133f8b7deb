use voxel_territory::classify::classify;
use voxel_territory::grid::{Coord, Extent, LabelGrid};
use voxel_territory::jobs::anchor_jobs;
use voxel_territory::label::{Color, Label};
use voxel_territory::postfill::{postfill, Limits};
use voxel_territory::refine::{Refinement, Step};
use voxel_territory::signs::{Sign, SignField};
use voxel_territory::wave::{trace_wave, Job, Role, Visit};

fn at(x: usize, y: usize, z: usize) -> Coord {
    Coord { x, y, z }
}

fn slot(extent: Extent, c: Coord) -> usize {
    (c.x * extent.height + c.y) * extent.depth + c.z
}

fn weigh(trace: &[Vec<Visit>], color: Color, extent: Extent) -> Vec<f64> {
    let mut raster = vec![0.0; extent.width * extent.height * extent.depth];
    let mut final_strength = 1.0;
    let mut final_strength_diff = 2.0;
    let mut strength = 1.0;
    let mut last_count = 1.0;
    for layer in trace {
        let stranger_penalty = 0.6 * 0.6 / (last_count * last_count);
        let mut count = 0;
        for visit in layer {
            if visit.role.is_obstruction() {
                final_strength *= 1.0 + final_strength_diff;
            }
            match visit.role {
                Role::Free => {
                    raster[slot(extent, visit.cell)] += strength;
                    count += 1;
                }
                Role::Stranger => raster[slot(extent, visit.cell)] += strength * stranger_penalty,
                _ => {}
            }
        }
        if count != 0 {
            last_count = (1.0 / count as f64) * 0.5 + 1.0 - 0.5;
            strength *= 0.6 * last_count;
            final_strength_diff *= 0.55;
        }
    }
    let signum = if color == Color::Blue { 1.0 } else { -1.0 };
    for value in raster.iter_mut() {
        *value *= signum * final_strength;
    }
    raster
}

fn influence(grid: &LabelGrid, jobs: &[Job]) -> Vec<f64> {
    let extent = grid.extent();
    let mut field = vec![0.0; extent.width * extent.height * extent.depth];
    for job in jobs {
        let contribution = weigh(&trace_wave(grid, *job), job.color, extent);
        for (sum, value) in field.iter_mut().zip(contribution) {
            *sum += value;
        }
    }
    field
}

fn signs_of(field: &[f64], extent: Extent) -> SignField {
    let cells = field
        .iter()
        .map(|v| {
            if *v > 0.0 {
                Sign::Positive
            } else if *v < 0.0 {
                Sign::Negative
            } else {
                Sign::Zero
            }
        })
        .collect();
    SignField::from_cells(extent, cells).unwrap()
}

fn facing_anchors() -> LabelGrid {
    let extent = Extent { width: 3, height: 3, depth: 1 };
    let mut grid = LabelGrid::new(extent, Label::Undetermined).unwrap();
    grid.set(at(1, 0, 0), Label::BlueAnchor);
    grid.set(at(1, 2, 0), Label::RedAnchor);
    grid
}

#[test]
fn wave_weights_on_a_line() {
    let extent = Extent { width: 3, height: 1, depth: 1 };
    let mut grid = LabelGrid::new(extent, Label::Undetermined).unwrap();
    grid.set(at(0, 0, 0), Label::BlueAnchor);
    let trace = trace_wave(&grid, Job { origin: at(0, 0, 0), color: Color::Blue });
    let field = weigh(&trace, Color::Blue, extent);
    assert_eq!(field, vec![1.0, 0.6, 0.36]);
    let red = weigh(&trace, Color::Red, extent);
    assert_eq!(red, vec![-1.0, -0.6, -0.36]);
}

#[test]
fn obstructions_raise_the_final_strength() {
    let extent = Extent { width: 3, height: 1, depth: 1 };
    let mut grid = LabelGrid::new(extent, Label::Undetermined).unwrap();
    grid.set(at(1, 0, 0), Label::BlueAnchor);
    grid.set(at(2, 0, 0), Label::Barrier);
    let trace = trace_wave(&grid, Job { origin: at(1, 0, 0), color: Color::Blue });
    let field = weigh(&trace, Color::Blue, extent);
    let final_strength = 1.0 + 2.0 * 0.55;
    assert_eq!(field, vec![0.6 * final_strength, 1.0 * final_strength, 0.0]);
}

#[test]
fn facing_anchors_split_the_grid_between_them() {
    let mut grid = facing_anchors();
    let extent = grid.extent();
    let jobs = anchor_jobs(&grid);
    assert_eq!(jobs.len(), 2);
    let field = influence(&grid, &jobs);
    for x in 0..3 {
        assert!(field[slot(extent, at(x, 0, 0))] > 0.0);
        assert_eq!(field[slot(extent, at(x, 1, 0))], 0.0);
        assert!(field[slot(extent, at(x, 2, 0))] < 0.0);
    }
    classify(&mut grid, &signs_of(&field, extent));
    assert_eq!(grid.get(at(1, 1, 0)), Label::BlueArea);
    assert_eq!(grid.get(at(1, 0, 0)), Label::BlueAnchor);
    assert_eq!(grid.get(at(1, 2, 0)), Label::RedAnchor);
    for x in [0, 2] {
        assert_eq!(grid.get(at(x, 0, 0)), Label::BlueArea);
        assert_eq!(grid.get(at(x, 1, 0)), Label::BlueArea);
        assert_eq!(grid.get(at(x, 2, 0)), Label::RedArea);
    }
}

#[test]
fn job_order_does_not_change_the_classification() {
    let extent = Extent { width: 4, height: 5, depth: 3 };
    let mut start = LabelGrid::new(extent, Label::Undetermined).unwrap();
    for x in 0..4 {
        for z in 0..3 {
            start.set(at(x, 0, z), Label::BlueAnchor);
            start.set(at(x, 4, z), Label::RedAnchor);
        }
    }
    start.set(at(1, 2, 1), Label::Barrier);
    start.set(at(2, 1, 0), Label::RedForbidden);
    let jobs = anchor_jobs(&start);
    let mut reversed = jobs.clone();
    reversed.reverse();
    let forward = signs_of(&influence(&start, &jobs), extent);
    let backward = signs_of(&influence(&start, &reversed), extent);
    let mut a = LabelGrid::new(extent, Label::Undetermined).unwrap();
    let mut b = LabelGrid::new(extent, Label::Undetermined).unwrap();
    for x in 0..4 {
        for y in 0..5 {
            for z in 0..3 {
                a.set(at(x, y, z), start.get(at(x, y, z)));
                b.set(at(x, y, z), start.get(at(x, y, z)));
            }
        }
    }
    classify(&mut a, &forward);
    classify(&mut b, &backward);
    assert_eq!(a, b);
}

#[test]
fn a_whole_run_resolves_every_cell() {
    let extent = Extent { width: 4, height: 6, depth: 2 };
    let mut grid = LabelGrid::new(extent, Label::Undetermined).unwrap();
    for x in 0..4 {
        for z in 0..2 {
            grid.set(at(x, 0, z), Label::BlueAnchor);
            grid.set(at(x, 5, z), Label::RedAnchor);
        }
    }
    for x in 0..3 {
        grid.set(at(x, 3, 0), Label::Barrier);
    }
    grid.set(at(3, 2, 1), Label::RedForbidden);
    let mut run = Refinement::new(grid, 2);
    while let Step::Propagate(jobs) = run.next() {
        let field = influence(run.grid(), &jobs);
        run.complete_pass(&signs_of(&field, extent));
    }
    let mut grid = run.into_grid();
    postfill(&mut grid, Limits { max_distance: 5, max_other: 2 });
    for x in 0..4 {
        for z in 0..2 {
            assert_eq!(grid.get(at(x, 0, z)), Label::BlueAnchor);
            assert_eq!(grid.get(at(x, 5, z)), Label::RedAnchor);
            for y in 0..6 {
                assert!(grid.get(at(x, y, z)) != Label::Undetermined);
            }
        }
    }
    for x in 0..3 {
        assert_eq!(grid.get(at(x, 3, 0)), Label::Barrier);
        assert_eq!(grid.get(at(x, 4, 0)), Label::RedArea);
    }
    assert_eq!(grid.get(at(3, 2, 1)), Label::BluePocket);
}
