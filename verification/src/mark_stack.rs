//! The mark stack: objects that are marked and whose fields are still to be
//! visited.

use vstd::prelude::*;

verus! {

/// A stack of pairs of an object's address and its tag. For an array that
/// is marked in pieces the second word is the index to resume at.
pub struct MarkStack {
    items: Vec<(u32, u32)>,
}

impl View for MarkStack {
    type V = Seq<(u32, u32)>;

    closed spec fn view(&self) -> Seq<(u32, u32)> {
        self.items@
    }
}

impl MarkStack {
    /// The empty stack.
    pub fn alloc_mark_stack() -> (r: MarkStack)
        ensures
            r@ == Seq::<(u32, u32)>::empty(),
    {
        MarkStack { items: Vec::new() }
    }

    /// Puts `(obj, tag)` on top.
    pub fn push(&mut self, obj: u32, tag: u32)
        ensures
            final(self)@ == old(self)@.push((obj, tag)),
    {
        self.items.push((obj, tag));
    }

    /// Takes the top item off; `None` when the stack is empty.
    pub fn pop(&mut self) -> (r: Option<(u32, u32)>)
        ensures
            old(self)@.len() == 0 ==> r.is_none() && final(self)@ == old(self)@,
            old(self)@.len() > 0 ==> r == Some(old(self)@.last()) && final(self)@ == old(
                self,
            )@.drop_last(),
    {
        self.items.pop()
    }
}

} // verus!
