//! Library behind the Chronos game-library editor for the PC Engine Mini:
//! the M2 archive and structured-data formats and the publishing rules.
use vstd::prelude::*;

pub mod mt19937;
pub mod mzs;
pub mod partition;
pub mod atlas;
pub mod editor;
pub mod import;
pub mod library;
pub mod psb;
pub mod publish;
pub mod saves;
pub mod source;
pub mod stock;
pub mod fonts;
pub mod title_mode_top;
pub mod title_prof;
pub mod title_select;

verus! {

} // verus!
