use vstd::prelude::*;

verus! {

/// The capability set the flattening adapter needs from a producer of
/// items: an exact-size, double-ended cursor. `remaining` is the
/// sequence of items still to be produced, front first; `len` reports
/// its length exactly; `next`/`next_back` consume one item from either
/// end; `nth`/`nth_back` skip into it from either end in one step.
pub trait Cursor: Sized {
    type Elem;

    /// The structural invariant the cursor maintains.
    spec fn inv(&self) -> bool;

    /// The items still to be produced, front to back.
    spec fn remaining(&self) -> Seq<Self::Elem>;

    /// The exact number of items still to be produced.
    fn len(&self) -> (n: usize)
        requires
            self.inv(),
        ensures
            n == self.remaining().len(),
    ;

    /// Produces the front item, or nothing once exhausted.
    fn next(&mut self) -> (r: Option<Self::Elem>)
        requires
            old(self).inv(),
        ensures
            final(self).inv(),
            old(self).remaining().len() == 0 ==> r is None && final(self).remaining()
                == old(self).remaining(),
            old(self).remaining().len() > 0 ==> r == Some(old(self).remaining()[0])
                && final(self).remaining() == old(self).remaining().drop_first(),
    ;

    /// Produces the back item, or nothing once exhausted.
    fn next_back(&mut self) -> (r: Option<Self::Elem>)
        requires
            old(self).inv(),
        ensures
            final(self).inv(),
            old(self).remaining().len() == 0 ==> r is None && final(self).remaining()
                == old(self).remaining(),
            old(self).remaining().len() > 0 ==> r == Some(old(self).remaining().last())
                && final(self).remaining() == old(self).remaining().drop_last(),
    ;

    /// Skips `n` items from the front and produces the next one: the
    /// item at offset `n`, with everything up to and including it
    /// consumed. Consumes everything when fewer than `n + 1` items
    /// remain.
    fn nth(&mut self, n: usize) -> (r: Option<Self::Elem>)
        requires
            old(self).inv(),
        ensures
            final(self).inv(),
            n < old(self).remaining().len() ==> r == Some(old(self).remaining()[n as int])
                && final(self).remaining() == old(self).remaining().skip(n + 1),
            n >= old(self).remaining().len() ==> r is None && final(self).remaining().len() == 0,
    ;

    /// Skips `n` items from the back and produces the next one in from
    /// the back. Consumes everything when fewer than `n + 1` items
    /// remain.
    fn nth_back(&mut self, n: usize) -> (r: Option<Self::Elem>)
        requires
            old(self).inv(),
        ensures
            final(self).inv(),
            n < old(self).remaining().len() ==> r == Some(
                old(self).remaining()[old(self).remaining().len() - 1 - n],
            ) && final(self).remaining() == old(self).remaining().take(
                old(self).remaining().len() - 1 - n,
            ),
            n >= old(self).remaining().len() ==> r is None && final(self).remaining().len() == 0,
    ;
}

} // verus!
