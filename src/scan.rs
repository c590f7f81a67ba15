//! The order of a directory scan: breadth first, each directory's entries
//! in the order the directory listing gave them, parents before the
//! entries below them.

use crate::index::texts;
use std::collections::VecDeque;
use vstd::prelude::*;

verus! {

/// The entries of a scan still to be visited, first to last. The caller
/// lists the root, hands each directory taken from the front back in as a
/// listing, and so walks the whole tree.
pub struct RecursiveDirIterator {
    q: VecDeque<String>,
}

impl View for RecursiveDirIterator {
    type V = Seq<Seq<char>>;

    closed spec fn view(&self) -> Seq<Seq<char>> {
        texts(self.q@)
    }
}

impl RecursiveDirIterator {
    /// A scan that starts with the root's entries, in the order given. A root
    /// that is not a directory has no entries, and gives an empty scan.
    pub fn new(root_entries: Vec<String>) -> (r: Self)
        ensures
            r@ == texts(root_entries@),
    {
        let mut r = RecursiveDirIterator { q: VecDeque::new() };
        r.push_entries(root_entries);
        r
    }

    /// The next entry to visit, taken from the front; `None` once the scan is
    /// done.
    pub fn next_entry(&mut self) -> (r: Option<String>)
        ensures
            match r {
                Some(entry) => {
                    &&& old(self)@.len() > 0
                    &&& entry@ == old(self)@[0]
                    &&& final(self)@ == old(self)@.drop_first()
                },
                None => old(self)@.len() == 0 && final(self)@ == old(self)@,
            },
    {
        let r = self.q.pop_front();
        proof {
            if r is Some {
                assert(texts(self.q@) =~= texts(old(self).q@).drop_first());
            }
        }
        r
    }

    /// Queues the entries of a directory that was just visited, behind
    /// everything already waiting.
    pub fn push_entries(&mut self, entries: Vec<String>)
        ensures
            final(self)@ == old(self)@ + texts(entries@),
    {
        let mut i: usize = 0;
        while i < entries.len()
            invariant
                i <= entries@.len(),
                self@ == old(self)@ + texts(entries@.take(i as int)),
            decreases entries@.len() - i,
        {
            let ghost before = self.q@;
            self.q.push_back(entries[i].clone());
            assert(texts(self.q@) =~= texts(before).push(entries@[i as int]@));
            assert(texts(entries@.take(i + 1)) =~= texts(entries@.take(i as int)).push(
                entries@[i as int]@,
            ));
            assert(self@ =~= old(self)@ + texts(entries@.take(i + 1)));
            i = i + 1;
        }
        assert(entries@.take(i as int) =~= entries@);
    }

    /// Whether any entry is still waiting.
    pub fn is_done(&self) -> (r: bool)
        ensures
            r == (self@.len() == 0),
    {
        self.q.len() == 0
    }
}

} // verus!
