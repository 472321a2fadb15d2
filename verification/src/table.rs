//! The location table: a map from the coordinates that a caller knows (those
//! of the body as first supplied) to the coordinates that are valid against
//! the body as it is now.

use crate::error::PatchError;
use crate::ir::Location;
use vstd::prelude::*;

verus! {

/// The strict order in which a table keeps its keys: by block, then by
/// position inside the block.
pub open spec fn precedes(a: Location, b: Location) -> bool {
    a.block < b.block || (a.block == b.block && a.statement_index < b.statement_index)
}

/// Where a current coordinate goes when the statements of block
/// `first_moved.block`, from position `first_moved.statement_index` onward,
/// move to the start of block `target`. A coordinate that does not lie there
/// stays where it is.
pub open spec fn redirected(current: Location, first_moved: Location, target: usize) -> Location {
    if current.block == first_moved.block && current.statement_index
        >= first_moved.statement_index {
        Location {
            block: target,
            statement_index: (current.statement_index - first_moved.statement_index) as usize,
        }
    } else {
        current
    }
}

fn location_precedes(a: Location, b: Location) -> (r: bool)
    ensures
        r == precedes(a, b),
{
    a.block < b.block || (a.block == b.block && a.statement_index < b.statement_index)
}

#[derive(Clone, Copy, Debug, PartialEq, Eq, Structural)]
struct Entry {
    original: Location,
    current: Location,
}

/// A finite map from original to current coordinates, kept as entries sorted
/// by their original coordinate.
#[derive(Clone, Debug)]
pub struct LocationTable {
    entries: Vec<Entry>,
}

impl View for LocationTable {
    type V = Map<Location, Location>;

    closed spec fn view(&self) -> Map<Location, Location> {
        Map::new(
            |k: Location| self.holds(k),
            |k: Location| self.entries@[self.index_of(k)].current,
        )
    }
}

impl LocationTable {
    spec fn holds(&self, k: Location) -> bool {
        exists|i: int| 0 <= i < self.entries@.len() && (#[trigger] self.entries@[i]).original == k
    }

    spec fn index_of(&self, k: Location) -> int {
        choose|i: int| 0 <= i < self.entries@.len() && (#[trigger] self.entries@[i]).original == k
    }

    /// The table's validity: its keys stand in strictly increasing order, so
    /// that none occurs twice.
    pub closed spec fn wf(&self) -> bool {
        forall|i: int, j: int|
            0 <= i < j < self.entries@.len() ==> precedes(
                (#[trigger] self.entries@[i]).original,
                (#[trigger] self.entries@[j]).original,
            )
    }

    /// The keys of the table in increasing order.
    pub closed spec fn keys(&self) -> Seq<Location> {
        Seq::new(self.entries@.len(), |i: int| self.entries@[i].original)
    }

    /// The sequence of keys lists the domain of the map, each key once and in
    /// increasing order.
    pub proof fn lemma_keys(&self)
        requires
            self.wf(),
        ensures
            forall|i: int|
                0 <= i < self.keys().len() ==> self@.dom().contains(#[trigger] self.keys()[i]),
            forall|k: Location| #[trigger]
                self@.dom().contains(k) ==> exists|i: int|
                    0 <= i < self.keys().len() && #[trigger] self.keys()[i] == k,
            forall|i: int, j: int|
                0 <= i < j < self.keys().len() ==> precedes(
                    #[trigger] self.keys()[i],
                    #[trigger] self.keys()[j],
                ),
    {
        assert forall|i: int| 0 <= i < self.keys().len() implies self@.dom().contains(
            #[trigger] self.keys()[i],
        ) by {
            self.lemma_entry(i);
        }
        assert forall|k: Location| #[trigger] self@.dom().contains(k) implies exists|i: int|
            0 <= i < self.keys().len() && #[trigger] self.keys()[i] == k by {
            let i = self.index_of(k);
            assert(self.keys()[i] == k);
        }
    }

    proof fn lemma_entry(&self, i: int)
        requires
            self.wf(),
            0 <= i < self.entries@.len(),
        ensures
            self@.dom().contains(self.entries@[i].original),
            self@[self.entries@[i].original] == self.entries@[i].current,
            self.index_of(self.entries@[i].original) == i,
    {
        let k = self.entries@[i].original;
        assert(self.holds(k));
        let j = self.index_of(k);
        assert(self.entries@[j].original == k);
        if j < i {
            assert(precedes(self.entries@[j].original, self.entries@[i].original));
        }
        if i < j {
            assert(precedes(self.entries@[i].original, self.entries@[j].original));
        }
    }

    /// A table without entries.
    pub fn new() -> (table: Self)
        ensures
            table.wf(),
            table@ == Map::<Location, Location>::empty(),
    {
        let table = LocationTable { entries: Vec::new() };
        assert(table@ =~= Map::<Location, Location>::empty());
        table
    }

    /// The number of entries.
    pub fn len(&self) -> (n: usize)
        ensures
            n == self.keys().len(),
    {
        self.entries.len()
    }

    /// The key at rank `i` in increasing order.
    pub fn key_at(&self, i: usize) -> (k: Location)
        requires
            i < self.keys().len(),
        ensures
            k == self.keys()[i as int],
    {
        self.entries[i].original
    }

    /// The current coordinate of the key at rank `i`.
    pub fn current_at(&self, i: usize) -> (c: Location)
        requires
            self.wf(),
            i < self.keys().len(),
        ensures
            c == self@[self.keys()[i as int]],
    {
        proof {
            self.lemma_entry(i as int);
        }
        self.entries[i].current
    }

    /// The rank of the first key that does not precede `key`.
    fn lower_bound(&self, key: Location) -> (p: usize)
        requires
            self.wf(),
        ensures
            p <= self.entries@.len(),
            forall|i: int| 0 <= i < p ==> precedes((#[trigger] self.entries@[i]).original, key),
            forall|i: int|
                p <= i < self.entries@.len() ==> !precedes(
                    (#[trigger] self.entries@[i]).original,
                    key,
                ),
    {
        let mut lo: usize = 0;
        let mut hi: usize = self.entries.len();
        while lo < hi
            invariant
                self.wf(),
                lo <= hi <= self.entries@.len(),
                forall|i: int|
                    0 <= i < lo ==> precedes((#[trigger] self.entries@[i]).original, key),
                forall|i: int|
                    hi <= i < self.entries@.len() ==> !precedes(
                        (#[trigger] self.entries@[i]).original,
                        key,
                    ),
            decreases hi - lo,
        {
            let mid: usize = lo + (hi - lo) / 2;
            if location_precedes(self.entries[mid].original, key) {
                assert forall|i: int| 0 <= i < mid + 1 implies precedes(
                    (#[trigger] self.entries@[i]).original,
                    key,
                ) by {
                    if i < mid {
                        assert(precedes(
                            self.entries@[i].original,
                            self.entries@[mid as int].original,
                        ));
                    }
                }
                lo = mid + 1;
            } else {
                assert forall|i: int| mid <= i < self.entries@.len() implies !precedes(
                    (#[trigger] self.entries@[i]).original,
                    key,
                ) by {
                    if mid < i {
                        assert(precedes(
                            self.entries@[mid as int].original,
                            self.entries@[i].original,
                        ));
                    }
                }
                hi = mid;
            }
        }
        lo
    }

    /// Looks up the current coordinate of an original one. Fails exactly when
    /// `original` is not a key of the table.
    pub fn resolve(&self, original: Location) -> (r: Result<Location, PatchError>)
        requires
            self.wf(),
        ensures
            self@.dom().contains(original) ==> r == Ok::<Location, PatchError>(self@[original]),
            !self@.dom().contains(original) ==> r == Err::<Location, PatchError>(
                PatchError::UnknownLocation,
            ),
    {
        let p = self.lower_bound(original);
        if p < self.entries.len() && self.entries[p].original == original {
            proof {
                self.lemma_entry(p as int);
            }
            Ok(self.entries[p].current)
        } else {
            proof {
                if self.holds(original) {
                    let i = self.index_of(original);
                    if p < i {
                        assert(precedes(
                            self.entries@[p as int].original,
                            self.entries@[i].original,
                        ));
                    }
                }
            }
            Err(PatchError::UnknownLocation)
        }
    }

    /// Maps `loc` to itself, whether or not it was a key before.
    pub fn record_identity(&mut self, loc: Location)
        requires
            old(self).wf(),
        ensures
            final(self).wf(),
            final(self)@ == old(self)@.insert(loc, loc),
    {
        let p = self.lower_bound(loc);
        let entry = Entry { original: loc, current: loc };
        if p < self.entries.len() && self.entries[p].original == loc {
            self.entries.set(p, entry);
            proof {
                assert forall|i: int, j: int| 0 <= i < j < self.entries@.len() implies precedes(
                    (#[trigger] self.entries@[i]).original,
                    (#[trigger] self.entries@[j]).original,
                ) by {
                    assert(self.entries@[i].original == old(self).entries@[i].original);
                    assert(self.entries@[j].original == old(self).entries@[j].original);
                }
                assert forall|k: Location| self.holds(k) == old(self)@.insert(
                    loc,
                    loc,
                ).dom().contains(k) by {
                    if self.holds(k) {
                        let i = self.index_of(k);
                        assert(old(self).entries@[i].original == k);
                    }
                    if old(self).holds(k) {
                        let i = old(self).index_of(k);
                        assert(self.entries@[i].original == k);
                    }
                    if k == loc {
                        assert(self.entries@[p as int].original == k);
                    }
                }
                assert forall|k: Location| self.holds(k) implies self@[k] == old(self)@.insert(
                    loc,
                    loc,
                )[k] by {
                    let i = self.index_of(k);
                    self.lemma_entry(i);
                    old(self).lemma_entry(i);
                }
                assert(self@ =~= old(self)@.insert(loc, loc));
            }
        } else {
            self.entries.insert(p, entry);
            proof {
                assert forall|i: int, j: int| 0 <= i < j < self.entries@.len() implies precedes(
                    (#[trigger] self.entries@[i]).original,
                    (#[trigger] self.entries@[j]).original,
                ) by {
                    let oi: int = if i < p { i } else { i - 1 };
                    let oj: int = if j < p { j } else { j - 1 };
                    if i != p && j != p {
                        assert(precedes(
                            old(self).entries@[oi].original,
                            old(self).entries@[oj].original,
                        ));
                    } else if i == p {
                        let q: Location = old(self).entries@[oj].original;
                        assert(!precedes(q, loc));
                        if p < oj {
                            assert(precedes(old(self).entries@[p as int].original, q));
                        }
                    } else {
                        assert(precedes(old(self).entries@[oi].original, loc));
                    }
                }
                assert forall|k: Location| self.holds(k) == old(self)@.insert(
                    loc,
                    loc,
                ).dom().contains(k) by {
                    if self.holds(k) {
                        let i = self.index_of(k);
                        if i < p {
                            assert(old(self).entries@[i].original == k);
                        } else if i > p {
                            assert(old(self).entries@[i - 1].original == k);
                        }
                    }
                    if old(self).holds(k) {
                        let i = old(self).index_of(k);
                        if i < p {
                            assert(self.entries@[i].original == k);
                        } else {
                            assert(self.entries@[i + 1].original == k);
                        }
                    }
                    if k == loc {
                        assert(self.entries@[p as int].original == k);
                    }
                }
                assert forall|k: Location| self.holds(k) implies self@[k] == old(self)@.insert(
                    loc,
                    loc,
                )[k] by {
                    let i = self.index_of(k);
                    self.lemma_entry(i);
                    if i < p {
                        old(self).lemma_entry(i);
                    } else if i > p {
                        old(self).lemma_entry(i - 1);
                    }
                }
                assert(self@ =~= old(self)@.insert(loc, loc));
            }
        }
    }

    /// Rewrites every entry whose current coordinate lies in block
    /// `first_moved.block` at position `first_moved.statement_index` or later:
    /// it then points into block `target`, at its old position less
    /// `first_moved.statement_index`. Every other entry, and every key, stays
    /// as it is. One pass over the table.
    pub fn redirect(&mut self, first_moved: Location, target: usize)
        requires
            old(self).wf(),
        ensures
            final(self).wf(),
            final(self).keys() == old(self).keys(),
            final(self)@.dom() == old(self)@.dom(),
            forall|k: Location| #[trigger]
                old(self)@.dom().contains(k) ==> final(self)@[k] == redirected(
                    old(self)@[k],
                    first_moved,
                    target,
                ),
    {
        let n = self.entries.len();
        let mut idx: usize = 0;
        while idx < n
            invariant
                idx <= n,
                n == self.entries@.len(),
                n == old(self).entries@.len(),
                forall|i: int|
                    0 <= i < n ==> (#[trigger] self.entries@[i]).original == old(self).entries@[i].original,
                forall|i: int|
                    0 <= i < idx ==> (#[trigger] self.entries@[i]).current == redirected(
                        old(self).entries@[i].current,
                        first_moved,
                        target,
                    ),
                forall|i: int|
                    idx <= i < n ==> (#[trigger] self.entries@[i]).current == old(self).entries@[i].current,
            decreases n - idx,
        {
            let e = self.entries[idx];
            if e.current.block == first_moved.block && e.current.statement_index
                >= first_moved.statement_index {
                let moved = Entry {
                    original: e.original,
                    current: Location {
                        block: target,
                        statement_index: e.current.statement_index - first_moved.statement_index,
                    },
                };
                self.entries.set(idx, moved);
            }
            idx = idx + 1;
        }
        proof {
            assert forall|i: int, j: int| 0 <= i < j < self.entries@.len() implies precedes(
                (#[trigger] self.entries@[i]).original,
                (#[trigger] self.entries@[j]).original,
            ) by {
                assert(precedes(old(self).entries@[i].original, old(self).entries@[j].original));
            }
            assert(self.keys() =~= old(self).keys());
            assert forall|k: Location| self.holds(k) == old(self).holds(k) by {
                if self.holds(k) {
                    let i = self.index_of(k);
                    assert(old(self).entries@[i].original == k);
                }
                if old(self).holds(k) {
                    let i = old(self).index_of(k);
                    assert(self.entries@[i].original == k);
                }
            }
            assert(self@.dom() =~= old(self)@.dom());
            assert forall|k: Location| #[trigger] old(self)@.dom().contains(k) implies self@[k]
                == redirected(old(self)@[k], first_moved, target) by {
                let i = old(self).index_of(k);
                old(self).lemma_entry(i);
                self.lemma_entry(i);
            }
        }
    }
}

} // verus!
