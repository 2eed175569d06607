use vstd::prelude::*;

verus! {

/// Capability required of a vertex payload: it exposes a stable, unique
/// string identifier. A graph does not interpret the payload otherwise.
pub trait Identifiable {
    /// The identifier of this value, as a sequence of characters. An
    /// implementation that does not say what its identifier is leaves it
    /// unknown.
    open spec fn id(&self) -> Seq<char> {
        arbitrary()
    }

    /// Returns the identifier of this value.
    fn get_id(&self) -> (id: String)
        ensures
            id@ == self.id(),
    ;
}

} // verus!
