//! Cursors over the nodes of a graph. Each is made from the state of the graph
//! at one moment and hands out what it was made with, item by item.

use vstd::prelude::*;

verus! {

/// Walks over the payloads of the nodes.
pub struct IterGraphNodeData<'a, D> {
    curr_idx: usize,
    items: Vec<&'a D>,
}

impl<'a, D> IterGraphNodeData<'a, D> {
    /// The items that have not been handed out yet, the next one first.
    pub closed spec fn remaining(&self) -> Seq<&'a D> {
        if self.curr_idx <= self.items.len() {
            self.items@.skip(self.curr_idx as int)
        } else {
            Seq::empty()
        }
    }

    /// A cursor that hands out `items` from the first to the last.
    pub fn new(items: Vec<&'a D>) -> (it: Self)
        ensures
            it.remaining() == items@,
    {
        let it = IterGraphNodeData { curr_idx: 0, items };
        assert(it.items@.skip(0) =~= it.items@);
        it
    }

    /// Hands out the next item, or `None` once all have been handed out.
    pub fn next(&mut self) -> (r: Option<&'a D>)
        ensures
            match r {
                Some(d) => {
                    &&& old(self).remaining().len() > 0
                    &&& d == old(self).remaining()[0]
                    &&& final(self).remaining() == old(self).remaining().skip(1)
                },
                None => old(self).remaining().len() == 0 && *final(self) == *old(self),
            },
    {
        if self.curr_idx >= self.items.len() {
            None
        } else {
            self.curr_idx += 1;
            assert(self.remaining() =~= old(self).remaining().skip(1));
            Some(self.items[self.curr_idx - 1])
        }
    }
}

/// Walks over the nodes as pairs of label and payload.
pub struct IterGraphNodeLabelAndData<'a, D> {
    curr_idx: usize,
    items: Vec<(&'a String, &'a D)>,
}

impl<'a, D> IterGraphNodeLabelAndData<'a, D> {
    /// The items that have not been handed out yet, the next one first.
    pub closed spec fn remaining(&self) -> Seq<(&'a String, &'a D)> {
        if self.curr_idx <= self.items.len() {
            self.items@.skip(self.curr_idx as int)
        } else {
            Seq::empty()
        }
    }

    /// A cursor that hands out `items` from the first to the last.
    pub fn new(items: Vec<(&'a String, &'a D)>) -> (it: Self)
        ensures
            it.remaining() == items@,
    {
        let it = IterGraphNodeLabelAndData { curr_idx: 0, items };
        assert(it.items@.skip(0) =~= it.items@);
        it
    }

    /// Hands out the next item, or `None` once all have been handed out.
    pub fn next(&mut self) -> (r: Option<(&'a String, &'a D)>)
        ensures
            match r {
                Some(item) => {
                    &&& old(self).remaining().len() > 0
                    &&& item == old(self).remaining()[0]
                    &&& final(self).remaining() == old(self).remaining().skip(1)
                },
                None => old(self).remaining().len() == 0 && *final(self) == *old(self),
            },
    {
        if self.curr_idx >= self.items.len() {
            None
        } else {
            self.curr_idx += 1;
            assert(self.remaining() =~= old(self).remaining().skip(1));
            Some(self.items[self.curr_idx - 1])
        }
    }
}

} // verus!
