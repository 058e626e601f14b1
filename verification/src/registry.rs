//! The connection registry: which client handle serves each language, and
//! one keyed by nothing for the editor's own connection.

use vstd::prelude::*;

verus! {

pub open spec fn key_v(k: Option<Vec<u8>>) -> Option<Seq<u8>> {
    match k {
        Option::None => Option::None,
        Option::Some(v) => Option::Some(v@),
    }
}

/// The handle registered under a key: first match over the entries.
pub open spec fn reg_lookup<H>(entries: Seq<(Option<Vec<u8>>, H)>, key: Option<Seq<u8>>) -> Option<
    H,
>
    decreases entries.len(),
{
    if entries.len() == 0 {
        Option::None
    } else if key_v(entries[0].0) == key {
        Option::Some(entries[0].1)
    } else {
        reg_lookup(entries.skip(1), key)
    }
}

pub proof fn lemma_reg_lookup_at<H>(entries: Seq<(Option<Vec<u8>>, H)>, i: int)
    requires
        0 <= i < entries.len(),
        forall|k: int| 0 <= k < i ==> key_v(entries[k].0) != key_v(entries[i].0),
    ensures
        reg_lookup(entries, key_v(entries[i].0)) == Option::Some(entries[i].1),
    decreases i,
{
    if i > 0 {
        assert(entries.skip(1)[i - 1] == entries[i]);
        lemma_reg_lookup_at(entries.skip(1), i - 1);
    }
}

pub proof fn lemma_reg_lookup_absent<H>(entries: Seq<(Option<Vec<u8>>, H)>, key: Option<Seq<u8>>)
    requires
        forall|k: int| 0 <= k < entries.len() ==> key_v((#[trigger] entries[k]).0) != key,
    ensures
        reg_lookup(entries, key) is None,
    decreases entries.len(),
{
    if entries.len() > 0 {
        lemma_reg_lookup_absent(entries.skip(1), key);
    }
}

pub proof fn lemma_reg_lookup_concat<H>(
    a: Seq<(Option<Vec<u8>>, H)>,
    b: Seq<(Option<Vec<u8>>, H)>,
    key: Option<Seq<u8>>,
)
    ensures
        reg_lookup(a + b, key) == match reg_lookup(a, key) {
            Option::Some(h) => Option::Some(h),
            Option::None => reg_lookup(b, key),
        },
    decreases a.len(),
{
    if a.len() == 0 {
        assert(a + b =~= b);
    } else {
        assert((a + b)[0] == a[0]);
        assert((a + b).skip(1) =~= a.skip(1) + b);
        lemma_reg_lookup_concat(a.skip(1), b, key);
    }
}

/// The registry itself. The editor's own connection sits under the absent
/// key; each running language server under its language identifier.
pub struct Registry<H> {
    pub entries: Vec<(Option<Vec<u8>>, H)>,
}

impl<H> Registry<H> {
    pub open spec fn wf(self) -> bool {
        forall|i: int, j: int| 0 <= i < j < self.entries@.len() ==> key_v(self.entries@[i].0)
            != key_v(self.entries@[j].0)
    }

    pub open spec fn spec_lookup(self, key: Option<Seq<u8>>) -> Option<H> {
        reg_lookup(self.entries@, key)
    }

    pub fn new() -> (r: Registry<H>)
        ensures
            r.entries@.len() == 0,
            r.wf(),
            forall|key: Option<Seq<u8>>| r.spec_lookup(key) is None,
    {
        let r = Registry { entries: Vec::new() };
        proof {
            assert forall|key: Option<Seq<u8>>| #[trigger] r.spec_lookup(key) is None by {
                lemma_reg_lookup_absent(r.entries@, key);
            }
        }
        r
    }

    fn position_of(&self, language_id: &Option<Vec<u8>>) -> (r: Option<usize>)
        ensures
            match r {
                Option::Some(i) => i < self.entries@.len() && key_v(self.entries@[i as int].0)
                    == key_v(*language_id) && forall|k: int| 0 <= k < i ==> key_v(
                    self.entries@[k].0,
                ) != key_v(*language_id),
                Option::None => forall|k: int| 0 <= k < self.entries@.len() ==> key_v(
                    (#[trigger] self.entries@[k]).0,
                ) != key_v(*language_id),
            },
    {
        let mut i: usize = 0;
        while i < self.entries.len()
            invariant
                0 <= i <= self.entries@.len(),
                forall|k: int| 0 <= k < i ==> key_v((#[trigger] self.entries@[k]).0) != key_v(
                    *language_id,
                ),
            decreases self.entries@.len() - i,
        {
            let hit = match (&self.entries[i].0, language_id) {
                (Option::None, Option::None) => true,
                (Option::Some(a), Option::Some(b)) => crate::json::bytes_eq(
                    a.as_slice(),
                    b.as_slice(),
                ),
                _ => false,
            };
            if hit {
                return Option::Some(i);
            }
            i = i + 1;
        }
        Option::None
    }

    /// Registers a handle, replacing any handle the key already carried: a
    /// server restart swaps the connection under its language.
    pub fn register(&mut self, language_id: Option<Vec<u8>>, handle: H)
        requires
            old(self).wf(),
        ensures
            final(self).wf(),
            final(self).spec_lookup(key_v(language_id)) == Option::Some(handle),
            forall|other: Option<Seq<u8>>| other != key_v(language_id) ==> final(self).spec_lookup(other)
                == old(self).spec_lookup(other),
    {
        let ghost key = key_v(language_id);
        match self.position_of(&language_id) {
            Option::Some(i) => {
                let ghost olde = self.entries@;
                self.entries.remove(i);
                let ghost mide = self.entries@;
                self.entries.insert(i, (language_id, handle));
                proof {
                    lemma_update_at(olde, self.entries@, i as int, key);
                }
            },
            Option::None => {
                let ghost olde = self.entries@;
                self.entries.push((language_id, handle));
                proof {
                    assert(self.entries@ =~= olde + seq![self.entries@[olde.len() as int]]);
                    lemma_append_fresh(olde, self.entries@, key);
                }
            },
        }
    }

    /// The handle serving a language, or nothing — which the router turns
    /// into a "server not running" error, never a crash.
    pub fn get_client(&self, language_id: &Option<Vec<u8>>) -> (r: Option<&H>)
        ensures
            match r {
                Option::Some(h) => self.spec_lookup(key_v(*language_id)) == Option::Some(*h),
                Option::None => self.spec_lookup(key_v(*language_id)) is None,
            },
    {
        match self.position_of(language_id) {
            Option::Some(i) => {
                proof {
                    lemma_reg_lookup_at(self.entries@, i as int);
                }
                Option::Some(&self.entries[i].1)
            },
            Option::None => {
                proof {
                    lemma_reg_lookup_absent(self.entries@, key_v(*language_id));
                }
                Option::None
            },
        }
    }

    /// Removes a stopped server's handle, handing it back for teardown.
    pub fn remove(&mut self, language_id: &Option<Vec<u8>>) -> (r: Option<H>)
        requires
            old(self).wf(),
        ensures
            final(self).wf(),
            r == old(self).spec_lookup(key_v(*language_id)),
            final(self).spec_lookup(key_v(*language_id)) is None,
            forall|other: Option<Seq<u8>>| other != key_v(*language_id) ==> final(self).spec_lookup(other)
                == old(self).spec_lookup(other),
    {
        match self.position_of(language_id) {
            Option::Some(i) => {
                proof {
                    lemma_reg_lookup_at(self.entries@, i as int);
                }
                let ghost olde = self.entries@;
                let (_, h) = self.entries.remove(i);
                proof {
                    lemma_remove_at(olde, self.entries@, i as int, key_v(*language_id));
                }
                Option::Some(h)
            },
            Option::None => {
                proof {
                    lemma_reg_lookup_absent(self.entries@, key_v(*language_id));
                }
                Option::None
            },
        }
    }
}

/// Replacing the entry at `i` changes that key's handle and no other.
proof fn lemma_update_at<H>(
    olde: Seq<(Option<Vec<u8>>, H)>,
    newe: Seq<(Option<Vec<u8>>, H)>,
    i: int,
    key: Option<Seq<u8>>,
)
    requires
        0 <= i < olde.len(),
        newe.len() == olde.len(),
        key_v(olde[i].0) == key,
        key_v(newe[i].0) == key,
        forall|k: int| 0 <= k < olde.len() && k != i ==> olde[k] == newe[k],
        forall|p: int, q: int| 0 <= p < q < olde.len() ==> key_v(olde[p].0) != key_v(olde[q].0),
    ensures
        forall|p: int, q: int| 0 <= p < q < newe.len() ==> key_v(newe[p].0) != key_v(newe[q].0),
        reg_lookup(newe, key) == Option::Some(newe[i].1),
        forall|other: Option<Seq<u8>>| other != key ==> reg_lookup(newe, other) == reg_lookup(
            olde,
            other,
        ),
    decreases olde.len(),
{
    assert forall|p: int, q: int| 0 <= p < q < newe.len() implies key_v(newe[p].0) != key_v(
        newe[q].0,
    ) by {
        assert(key_v(newe[p].0) == key_v(olde[p].0));
        assert(key_v(newe[q].0) == key_v(olde[q].0));
    }
    lemma_reg_lookup_at(newe, i);
    assert forall|other: Option<Seq<u8>>| other != key implies #[trigger] reg_lookup(newe, other)
        == reg_lookup(olde, other) by {
        lemma_lookup_pointwise(olde, newe, i, key, other);
    }
}

proof fn lemma_lookup_pointwise<H>(
    olde: Seq<(Option<Vec<u8>>, H)>,
    newe: Seq<(Option<Vec<u8>>, H)>,
    i: int,
    key: Option<Seq<u8>>,
    other: Option<Seq<u8>>,
)
    requires
        0 <= i < olde.len(),
        newe.len() == olde.len(),
        key_v(olde[i].0) == key,
        key_v(newe[i].0) == key,
        other != key,
        forall|k: int| 0 <= k < olde.len() && k != i ==> olde[k] == newe[k],
    ensures
        reg_lookup(newe, other) == reg_lookup(olde, other),
    decreases olde.len(),
{
    if olde.len() > 0 {
        if i == 0 {
            assert(key_v(olde[0].0) != other);
            assert(key_v(newe[0].0) != other);
            assert(olde.skip(1) =~= newe.skip(1));
        } else {
            assert(olde[0] == newe[0]);
            assert forall|k: int|
                0 <= k < olde.skip(1).len() && k != i - 1 implies olde.skip(1)[k] == newe.skip(
                1,
            )[k] by {
                assert(olde.skip(1)[k] == olde[k + 1]);
                assert(newe.skip(1)[k] == newe[k + 1]);
            }
            assert(olde.skip(1)[i - 1] == olde[i]);
            assert(newe.skip(1)[i - 1] == newe[i]);
            lemma_lookup_pointwise(olde.skip(1), newe.skip(1), i - 1, key, other);
        }
    }
}

/// Appending under a key absent so far serves that key and disturbs no
/// other.
proof fn lemma_append_fresh<H>(
    olde: Seq<(Option<Vec<u8>>, H)>,
    newe: Seq<(Option<Vec<u8>>, H)>,
    key: Option<Seq<u8>>,
)
    requires
        newe.len() == olde.len() + 1,
        forall|k: int| 0 <= k < olde.len() ==> olde[k] == newe[k],
        key_v(newe[olde.len() as int].0) == key,
        forall|k: int| 0 <= k < olde.len() ==> key_v((#[trigger] olde[k]).0) != key,
        forall|p: int, q: int| 0 <= p < q < olde.len() ==> key_v(olde[p].0) != key_v(olde[q].0),
    ensures
        forall|p: int, q: int| 0 <= p < q < newe.len() ==> key_v(newe[p].0) != key_v(newe[q].0),
        reg_lookup(newe, key) == Option::Some(newe[olde.len() as int].1),
        forall|other: Option<Seq<u8>>| other != key ==> reg_lookup(newe, other) == reg_lookup(
            olde,
            other,
        ),
{
    assert forall|p: int, q: int| 0 <= p < q < newe.len() implies key_v(newe[p].0) != key_v(
        newe[q].0,
    ) by {
        if q < olde.len() {
        } else {
            assert(key_v(newe[q].0) == key);
            assert(newe[p] == olde[p]);
        }
    }
    lemma_reg_lookup_at(newe, olde.len() as int);
    let last = seq![newe[olde.len() as int]];
    assert(newe =~= olde + last);
    assert forall|other: Option<Seq<u8>>| other != key implies #[trigger] reg_lookup(newe, other)
        == reg_lookup(olde, other) by {
        lemma_reg_lookup_concat(olde, last, other);
        assert(last.skip(1).len() == 0);
        assert(reg_lookup(last.skip(1), other) is None);
        assert(reg_lookup(last, other) is None);
    }
}

/// Removing the entry at `i` clears that key and no other.
proof fn lemma_remove_at<H>(
    olde: Seq<(Option<Vec<u8>>, H)>,
    newe: Seq<(Option<Vec<u8>>, H)>,
    i: int,
    key: Option<Seq<u8>>,
)
    requires
        0 <= i < olde.len(),
        key_v(olde[i].0) == key,
        newe == olde.remove(i),
        forall|p: int, q: int| 0 <= p < q < olde.len() ==> key_v(olde[p].0) != key_v(olde[q].0),
    ensures
        forall|p: int, q: int| 0 <= p < q < newe.len() ==> key_v(newe[p].0) != key_v(newe[q].0),
        reg_lookup(newe, key) is None,
        forall|other: Option<Seq<u8>>| other != key ==> reg_lookup(newe, other) == reg_lookup(
            olde,
            other,
        ),
{
    assert(newe =~= olde.take(i) + olde.skip(i + 1));
    assert forall|p: int, q: int| 0 <= p < q < newe.len() implies key_v(newe[p].0) != key_v(
        newe[q].0,
    ) by {
        let p0 = if p < i { p } else { p + 1 };
        let q0 = if q < i { q } else { q + 1 };
        assert(newe[p] == olde[p0]);
        assert(newe[q] == olde[q0]);
    }
    assert forall|k: int| 0 <= k < newe.len() implies key_v((#[trigger] newe[k]).0) != key by {
        let k0 = if k < i { k } else { k + 1 };
        assert(newe[k] == olde[k0]);
    }
    lemma_reg_lookup_absent(newe, key);
    assert forall|other: Option<Seq<u8>>| other != key implies #[trigger] reg_lookup(newe, other)
        == reg_lookup(olde, other) by {
        lemma_reg_lookup_concat(olde.take(i), olde.skip(i + 1), other);
        let mid = seq![olde[i]];
        assert(olde =~= (olde.take(i) + mid) + olde.skip(i + 1));
        lemma_reg_lookup_concat(olde.take(i) + mid, olde.skip(i + 1), other);
        lemma_reg_lookup_concat(olde.take(i), mid, other);
        assert(mid.skip(1).len() == 0);
        assert(reg_lookup(mid.skip(1), other) is None);
        assert(reg_lookup(mid, other) is None);
    }
}

} // verus!
