//! Reading of the entity section of a DXF drawing: the text is paired into
//! (group code, value) records, spans between code-0 boundaries are
//! collected into field tables, and POINT, LINE and 3DFACE spans are decoded
//! into geometric records.
//!
//! The library is generic over the coordinate type `V`: the caller hands in,
//! for each line, the number that line reads as, and the value that an absent
//! field takes.
use vstd::prelude::*;

pub mod fields;
pub mod geometry;
pub mod codes;
pub mod machine;
