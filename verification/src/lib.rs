//! The document side of the Gaze text viewer: the sparse store of loaded file
//! bytes, the map between byte offsets and text positions, and the rules that
//! move a cursor and choose what to load next.

use vstd::prelude::*;

pub mod answers;
pub mod asking;
pub mod bounds;
pub mod cfg;
pub mod demem;
pub mod fileview;
pub mod filling;
pub mod input;
pub mod layout;
pub mod linemap;
pub mod linemapper;
pub mod lines;
pub mod loaded;
pub mod loading;
pub mod lookup;
pub mod mapping;
pub mod marks;
pub mod merging;
pub mod moves;
pub mod patchwork;
pub mod pieces;
pub mod places;
pub mod position;
pub mod rows;
pub mod runs;
pub mod seams;
pub mod spacing;
pub mod sparse;
pub mod stitched;
pub mod storing;
pub mod strict;
pub mod surroundings;
pub mod tabs;
pub mod truth;
pub mod utf8;
pub mod views;

verus! {

} // verus!
