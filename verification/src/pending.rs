//! The pending-call table of one connection: every outstanding request's id,
//! each paired with the completion slot its caller waits on.
//!
//! Replies carry the id they answer; the table pairs each reply with the one
//! slot registered under that id, whatever order replies arrive in, and on
//! teardown hands every outstanding slot out exactly once so that each can be
//! failed with a disconnection error.

use vstd::prelude::*;

verus! {

/// The slot registered under an id, if any: the first-match association over
/// the table's entries.
pub open spec fn pend_lookup<S>(entries: Seq<(u64, S)>, id: u64) -> Option<S>
    decreases entries.len(),
{
    if entries.len() == 0 {
        Option::None
    } else if entries[0].0 == id {
        Option::Some(entries[0].1)
    } else {
        pend_lookup(entries.skip(1), id)
    }
}

/// How many entries carry the id.
pub open spec fn pend_count<S>(entries: Seq<(u64, S)>, id: u64) -> nat
    decreases entries.len(),
{
    if entries.len() == 0 {
        0
    } else if entries[0].0 == id {
        1 + pend_count(entries.skip(1), id)
    } else {
        pend_count(entries.skip(1), id)
    }
}

/// Entry ids are pairwise distinct.
pub open spec fn distinct_ids<S>(entries: Seq<(u64, S)>) -> bool {
    forall|i: int, j: int| 0 <= i < j < entries.len() ==> entries[i].0 != entries[j].0
}

/// Looking up across two runs of entries: the earlier run answers first.
pub proof fn lemma_pend_lookup_concat<S>(a: Seq<(u64, S)>, b: Seq<(u64, S)>, id: u64)
    ensures
        pend_lookup(a + b, id) == match pend_lookup(a, id) {
            Option::Some(s) => Option::Some(s),
            Option::None => pend_lookup(b, id),
        },
    decreases a.len(),
{
    if a.len() == 0 {
        assert(a + b =~= b);
    } else {
        assert((a + b)[0] == a[0]);
        assert((a + b).skip(1) =~= a.skip(1) + b);
        lemma_pend_lookup_concat(a.skip(1), b, id);
    }
}

/// Under an id that stands at position `i` of a table with distinct ids, the
/// lookup finds exactly that entry.
pub proof fn lemma_pend_lookup_at<S>(entries: Seq<(u64, S)>, i: int)
    requires
        0 <= i < entries.len(),
        forall|k: int| 0 <= k < i ==> entries[k].0 != entries[i].0,
    ensures
        pend_lookup(entries, entries[i].0) == Option::Some(entries[i].1),
    decreases i,
{
    if i > 0 {
        assert(entries.skip(1)[i - 1] == entries[i]);
        lemma_pend_lookup_at(entries.skip(1), i - 1);
    }
}

/// An id nowhere in the table has no slot.
pub proof fn lemma_pend_lookup_absent<S>(entries: Seq<(u64, S)>, id: u64)
    requires
        forall|k: int| 0 <= k < entries.len() ==> (#[trigger] entries[k]).0 != id,
    ensures
        pend_lookup(entries, id) is None,
        pend_count(entries, id) == 0,
    decreases entries.len(),
{
    if entries.len() > 0 {
        lemma_pend_lookup_absent(entries.skip(1), id);
    }
}

/// The table itself.
pub struct PendingTable<S> {
    pub entries: Vec<(u64, S)>,
}

impl<S> PendingTable<S> {
    pub open spec fn wf(self) -> bool {
        distinct_ids(self.entries@)
    }

    pub open spec fn spec_lookup(self, id: u64) -> Option<S> {
        pend_lookup(self.entries@, id)
    }

    pub fn new() -> (r: PendingTable<S>)
        ensures
            r.entries@.len() == 0,
            r.wf(),
    {
        PendingTable { entries: Vec::new() }
    }

    /// Whether a call with this id is outstanding.
    pub fn contains(&self, id: u64) -> (r: bool)
        ensures
            r == (self.spec_lookup(id) is Some),
    {
        let mut i: usize = 0;
        while i < self.entries.len()
            invariant
                0 <= i <= self.entries@.len(),
                forall|k: int| 0 <= k < i ==> (#[trigger] self.entries@[k]).0 != id,
            decreases self.entries@.len() - i,
        {
            if self.entries[i].0 == id {
                proof {
                    lemma_pend_lookup_at(self.entries@, i as int);
                }
                return true;
            }
            i = i + 1;
        }
        proof {
            lemma_pend_lookup_absent(self.entries@, id);
        }
        false
    }

    /// Registers the slot a fresh call's reply must fill.
    pub fn register(&mut self, id: u64, slot: S)
        requires
            old(self).wf(),
            old(self).spec_lookup(id) is None,
        ensures
            final(self).wf(),
            final(self).entries@ == old(self).entries@.push((id, slot)),
            final(self).spec_lookup(id) == Option::Some(slot),
            forall|other: u64| other != id ==> final(self).spec_lookup(other) == old(
                self,
            ).spec_lookup(other),
    {
        proof {
            lemma_pend_first(old(self).entries@, id);
        }
        let ghost olde = self.entries@;
        self.entries.push((id, slot));
        proof {
            assert(self.entries@ =~= olde + seq![(id, slot)]);
            lemma_pend_lookup_concat(olde, seq![(id, slot)], id);
            assert forall|other: u64| other != id implies #[trigger] pend_lookup(
                self.entries@,
                other,
            ) == pend_lookup(olde, other) by {
                lemma_pend_lookup_concat(olde, seq![(id, slot)], other);
                assert(seq![(id, slot)].skip(1).len() == 0);
                assert(pend_lookup(seq![(id, slot)].skip(1), other) is None);
                assert(pend_lookup(seq![(id, slot)], other) is None);
            }
        }
    }

    /// Takes the slot registered under a reply's id out of the table: the
    /// one caller waiting on that id gets it, every other entry stays.
    pub fn resolve(&mut self, id: u64) -> (r: Option<S>)
        requires
            old(self).wf(),
        ensures
            final(self).wf(),
            r == old(self).spec_lookup(id),
            final(self).spec_lookup(id) is None,
            forall|other: u64| other != id ==> final(self).spec_lookup(other) == old(
                self,
            ).spec_lookup(other),
            (r is Some) ==> exists|i: int|
                0 <= i < old(self).entries@.len() && (#[trigger] old(self).entries@[i]).0 == id
                    && final(self).entries@ == old(self).entries@.take(i) + old(
                    self,
                ).entries@.skip(i + 1),
            (r is Some) ==> final(self).entries@.len() + 1 == old(self).entries@.len(),
            (r is None) ==> *final(self) == *old(self),
    {
        let mut i: usize = 0;
        while i < self.entries.len()
            invariant
                0 <= i <= self.entries@.len(),
                *self == *old(self),
                old(self).wf(),
                forall|k: int| 0 <= k < i ==> (#[trigger] self.entries@[k]).0 != id,
            decreases self.entries@.len() - i,
        {
            if self.entries[i].0 == id {
                proof {
                    lemma_pend_lookup_at(self.entries@, i as int);
                }
                let ghost olde = self.entries@;
                let (_, s) = self.entries.remove(i);
                proof {
                    assert(self.entries@ =~= olde.take(i as int) + olde.skip(i as int + 1));
                    lemma_remove_keeps_others(olde, i as int, id);
                }
                return Option::Some(s);
            }
            i = i + 1;
        }
        proof {
            lemma_pend_lookup_absent(self.entries@, id);
        }
        Option::None
    }

    /// Empties the table on teardown: every outstanding slot comes out, each
    /// exactly once, so each waiting caller is failed with a disconnection
    /// error and none is left hanging.
    pub fn drain(&mut self) -> (r: Vec<(u64, S)>)
        requires
            old(self).wf(),
        ensures
            r@ == old(self).entries@,
            distinct_ids(r@),
            final(self).entries@.len() == 0,
            final(self).wf(),
    {
        let mut out: Vec<(u64, S)> = Vec::new();
        core::mem::swap(&mut out, &mut self.entries);
        out
    }
}

/// In a distinct-id table, a registered slot stands in exactly one entry:
/// the reply resolving it can neither miss it nor find it twice.
pub proof fn lemma_pend_first<S>(entries: Seq<(u64, S)>, id: u64)
    requires
        distinct_ids(entries),
    ensures
        pend_lookup(entries, id) is Some ==> pend_count(entries, id) == 1,
        pend_lookup(entries, id) is None ==> pend_count(entries, id) == 0,
        (exists|k: int| 0 <= k < entries.len() && (#[trigger] entries[k]).0 == id)
            ==> pend_lookup(entries, id) is Some,
    decreases entries.len(),
{
    if entries.len() > 0 {
        assert(distinct_ids(entries.skip(1))) by {
            assert forall|i: int, j: int|
                0 <= i < j < entries.skip(1).len() implies entries.skip(1)[i].0 != entries.skip(
                1,
            )[j].0 by {
                assert(entries.skip(1)[i] == entries[i + 1]);
                assert(entries.skip(1)[j] == entries[j + 1]);
            }
        }
        lemma_pend_first(entries.skip(1), id);
        if entries[0].0 == id {
            assert forall|k: int|
                0 <= k < entries.skip(1).len() implies (#[trigger] entries.skip(1)[k]).0
                != id by {
                assert(entries.skip(1)[k] == entries[k + 1]);
            }
            lemma_pend_lookup_absent(entries.skip(1), id);
        } else {
            if exists|k: int| 0 <= k < entries.len() && (#[trigger] entries[k]).0 == id {
                let k = choose|k: int|
                    0 <= k < entries.len() && (#[trigger] entries[k]).0 == id;
                assert(k > 0);
                assert(entries.skip(1)[k - 1] == entries[k]);
            }
        }
    }
}

proof fn lemma_remove_keeps_others<S>(entries: Seq<(u64, S)>, i: int, id: u64)
    requires
        distinct_ids(entries),
        0 <= i < entries.len(),
        entries[i].0 == id,
    ensures
        distinct_ids(entries.take(i) + entries.skip(i + 1)),
        pend_lookup(entries.take(i) + entries.skip(i + 1), id) is None,
        forall|other: u64| other != id ==> pend_lookup(entries.take(i) + entries.skip(i + 1), other)
            == pend_lookup(entries, other),
{
    let rest = entries.take(i) + entries.skip(i + 1);
    assert forall|p: int, q: int| 0 <= p < q < rest.len() implies rest[p].0 != rest[q].0 by {
        let p0 = if p < i { p } else { p + 1 };
        let q0 = if q < i { q } else { q + 1 };
        assert(rest[p] == entries[p0]);
        assert(rest[q] == entries[q0]);
    }
    assert forall|k: int| 0 <= k < rest.len() implies (#[trigger] rest[k]).0 != id by {
        let k0 = if k < i { k } else { k + 1 };
        assert(rest[k] == entries[k0]);
    }
    lemma_pend_lookup_absent(rest, id);
    assert forall|other: u64| other != id implies #[trigger] pend_lookup(rest, other)
        == pend_lookup(entries, other) by {
        lemma_pend_lookup_concat(entries.take(i), entries.skip(i + 1), other);
        assert(entries =~= entries.take(i) + seq![entries[i]] + entries.skip(i + 1));
        lemma_pend_lookup_concat(entries.take(i) + seq![entries[i]], entries.skip(i + 1), other);
        lemma_pend_lookup_concat(entries.take(i), seq![entries[i]], other);
        assert(seq![entries[i]].skip(1).len() == 0);
        assert(pend_lookup(seq![entries[i]].skip(1), other) is None);
        assert(pend_lookup(seq![entries[i]], other) is None);
        assert((entries.take(i) + seq![entries[i]]) + entries.skip(i + 1) =~= entries);
    }
}

/// Replies correlate by id alone: resolving one call's reply leaves every
/// other outstanding call's slot exactly where it was, so each of N
/// concurrent calls receives the slot registered under its own id whatever
/// order the replies arrive in.
pub proof fn lemma_correlation_by_id<S>(entries: Seq<(u64, S)>, i: int, other: u64)
    requires
        distinct_ids(entries),
        0 <= i < entries.len(),
        entries[i].0 != other,
    ensures
        pend_lookup(entries.take(i) + entries.skip(i + 1), other) == pend_lookup(entries, other),
{
    lemma_remove_keeps_others(entries, i, entries[i].0);
}

} // verus!
