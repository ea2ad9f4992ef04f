//! The latest known position, shared between the gpsd client, which writes it, and
//! the formatters, which read it.

use std::sync::Arc;

use arc_swap::ArcSwap;
use vstd::prelude::*;

verus! {

/// A cell holding the latest position text, if any, that one thread stores into
/// while others read it (an `arc_swap::ArcSwap`). Its contents are not visible to
/// proofs: every read may see a newer value.
#[verifier::external_body]
pub struct PositionCell {
    cell: ArcSwap<Option<String>>,
}

impl PositionCell {
    /// A cell that holds no position (`ArcSwap::from_pointee` with `None`).
    #[verifier::external_body]
    pub fn new() -> (r: Self) {
        PositionCell { cell: ArcSwap::from_pointee(None) }
    }

    /// The value last stored (`ArcSwap::load`, then a copy of the text). Other
    /// threads store concurrently, so nothing is promised of the result.
    #[verifier::external_body]
    pub(crate) fn load(&self) -> (r: Option<String>) {
        (**self.cell.load()).clone()
    }

    /// Replaces the value that later loads see (`ArcSwap::store`).
    #[verifier::external_body]
    pub fn store(&self, position: Option<String>) {
        self.cell.store(Arc::new(position))
    }
}

/// Another handle on the same cell (`Arc::clone`): it reaches the very same cell,
/// which proofs see as equality of the handles.
#[verifier::external_body]
pub(crate) fn share_position(p: &Arc<PositionCell>) -> (r: Arc<PositionCell>)
    ensures
        r == *p,
{
    Arc::clone(p)
}

} // verus!
