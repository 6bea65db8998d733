use vstd::prelude::*;

verus! {

/// A counter from which identifiers are drawn in increasing order.
///
/// Every operator node of one grammar takes its identifier from the same
/// counter, so no two of them share one.
pub struct IdentifierCounter {
    next: usize,
}

impl IdentifierCounter {
    /// The value that the next identifier drawn from this counter will have.
    pub closed spec fn next_id(&self) -> int {
        self.next as int
    }

    pub fn new() -> (counter: Self)
        ensures
            counter.next_id() == 0,
    {
        IdentifierCounter { next: 0 }
    }

    /// True while the counter can still hand out an identifier.
    pub fn has_next(&self) -> (more: bool)
        ensures
            more == (self.next_id() < usize::MAX),
    {
        self.next < usize::MAX
    }
}

/// `OpaqueIdentifier` is the key by which the memo table tells operator
/// nodes apart. It identifies a node instance, not its structure.
///
/// `Clone` and `Copy` are left out on purpose, so that an identifier cannot
/// be duplicated by accident.
#[derive(Debug, Hash, PartialEq, Eq)]
pub struct OpaqueIdentifier(usize);

impl View for OpaqueIdentifier {
    type V = usize;

    closed spec fn view(&self) -> usize {
        self.0
    }
}

impl OpaqueIdentifier {
    /// Draws the next identifier from `counter`.
    pub fn new(counter: &mut IdentifierCounter) -> (id: Self)
        requires
            old(counter).next_id() < usize::MAX,
        ensures
            id@ == old(counter).next_id(),
            final(counter).next_id() == old(counter).next_id() + 1,
    {
        let value = counter.next;
        counter.next = value + 1;
        OpaqueIdentifier(value)
    }

    pub fn id(&self) -> (value: usize)
        ensures
            value == self@,
    {
        self.0
    }
}

/// Identifiers drawn from one counter, one after the other, differ, and the
/// later one is the larger.
pub proof fn lemma_identifiers_increase(
    before: IdentifierCounter,
    first: OpaqueIdentifier,
    between: IdentifierCounter,
    second: OpaqueIdentifier,
    after: IdentifierCounter,
)
    requires
        first@ == before.next_id(),
        between.next_id() == before.next_id() + 1,
        second@ == between.next_id(),
        after.next_id() == between.next_id() + 1,
    ensures
        first@ < second@,
        first != second,
{
}

} // verus!
