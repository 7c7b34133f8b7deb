//! Classification of a layered voxel volume into two opposing territories.
//!
//! A volume is a dense grid of labelled cells. Curves stamped into it leave
//! barrier cells and the anchors of a red and a blue territory. Every anchor
//! then sends a wave through the grid; the sign of the summed influence of
//! the waves, read column by column, resolves each open cell to one of the
//! two territories. A last sweep turns forbidden zones that the rival
//! encloses into pockets.
//!
//! - [`label`]: the labels of a cell and the two territories.
//! - [`grid`]: coordinates, extents and the label grid.
//! - [`marks`]: the visited marks of one search.
//! - [`neighbours`]: the lattice steps of waves and searches.
//! - [`seed`]: stamping rasterized curves into the grid.
//! - [`wave`]: the layered expansion from one anchor.
//! - [`jobs`]: the waves of one pass.
//! - [`signs`]: the sign of the influence at each cell.
//! - [`classify`]: the column classifier.
//! - [`refine`]: the controller of the refinement passes.
//! - [`postfill`]: the reclassification of enclosed forbidden zones.
//! - [`payload`]: the encoded cell data of a volume file.
//!
//! Weighing what the waves record is arithmetic on real numbers and is left
//! to the caller, who hands back the sign of the result at each cell.

pub mod label;
pub mod grid;
pub mod marks;
pub mod neighbours;
pub mod seed;
pub mod wave;
pub mod jobs;
pub mod signs;
pub mod classify;
pub mod refine;
pub mod postfill;
pub mod payload;
