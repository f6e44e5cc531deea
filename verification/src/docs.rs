//! The state of the documentation panel: whether it is open and which section it shows.
use vstd::prelude::*;

verus! {

/// The sections of the documentation.
#[derive(Clone, Copy, Debug, PartialEq, Eq, Structural)]
pub enum DocSection {
    Overview,
    Principles,
    Blocks,
}

impl Default for DocSection {
    fn default() -> (s: Self)
        ensures
            s == DocSection::Overview,
    {
        DocSection::Overview
    }
}

/// The documentation panel: whether it is open, and the section it shows.
pub struct DocWidget {
    pub is_open: bool,
    pub selected_section: DocSection,
}

impl Default for DocWidget {
    fn default() -> (w: Self)
        ensures
            !w.is_open,
            w.selected_section == DocSection::Overview,
    {
        DocWidget { is_open: false, selected_section: DocSection::Overview }
    }
}

} // verus!
