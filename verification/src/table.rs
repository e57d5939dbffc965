//! A small keyed table: the model of the host's durable key-value storage.
//!
//! Every persistent mapping of the ledger (holding quantities, score
//! overrides, rates, checkpoints, stored balances) is a [`Table`]: a list
//! of records keyed by up to three integer components, with at most one
//! record per key. A key that is absent reads as zero where a plain value
//! is wanted; [`Table::opt`] tells absence apart from a stored zero.

use vstd::prelude::*;

verus! {

/// One stored record: a three-component key and its value. Unused key
/// components are zero by convention of the table's owner.
#[derive(Clone, Copy, PartialEq, Eq, Structural, Debug)]
pub struct Record {
    pub k1: u64,
    pub k2: u64,
    pub k3: u64,
    pub value: u128,
}

/// First value stored under the key, searching from the front.
pub open spec fn spec_find(s: Seq<Record>, k1: u64, k2: u64, k3: u64) -> Option<u128>
    decreases s.len(),
{
    if s.len() == 0 {
        None
    } else if s[0].k1 == k1 && s[0].k2 == k2 && s[0].k3 == k3 {
        Some(s[0].value)
    } else {
        spec_find(s.drop_first(), k1, k2, k3)
    }
}

/// Sum of every stored value.
pub open spec fn spec_total(s: Seq<Record>) -> int
    decreases s.len(),
{
    if s.len() == 0 {
        0
    } else {
        s[0].value + spec_total(s.drop_first())
    }
}

/// No two records share a key.
pub open spec fn distinct_keys(s: Seq<Record>) -> bool {
    forall|i: int, j: int|
        #![trigger s[i], s[j]]
        0 <= i < j < s.len() ==> !(s[i].k1 == s[j].k1 && s[i].k2 == s[j].k2 && s[i].k3 == s[j].k3)
}

/// A keyed mapping with at most one record per key.
pub struct Table {
    pub records: Vec<Record>,
}

impl Table {
    /// The value stored under the key, if the key is present.
    pub open spec fn opt(self, k1: u64, k2: u64, k3: u64) -> Option<u128> {
        spec_find(self.records@, k1, k2, k3)
    }

    /// The value stored under the key, zero when the key is absent.
    pub open spec fn get(self, k1: u64, k2: u64, k3: u64) -> u128 {
        match self.opt(k1, k2, k3) {
            Some(v) => v,
            None => 0,
        }
    }

    /// Whether the key is present.
    pub open spec fn contains(self, k1: u64, k2: u64, k3: u64) -> bool {
        self.opt(k1, k2, k3) is Some
    }

    /// Sum of every stored value.
    pub open spec fn total(self) -> int {
        spec_total(self.records@)
    }

    /// Each key appears at most once.
    pub open spec fn wf(self) -> bool {
        distinct_keys(self.records@)
    }

    /// Every record's second and third key components are these values:
    /// the discipline of a table that uses fewer than three components.
    pub open spec fn keys_shaped(self, b: u64, c: u64) -> bool {
        forall|i: int|
            0 <= i < self.records@.len() ==> (#[trigger] self.records@[i].k2 == b
                && self.records@[i].k3 == c)
    }

    /// Every record's third key component is this value: the discipline
    /// of a table that uses two components.
    pub open spec fn keys_shaped3(self, c: u64) -> bool {
        forall|i: int| 0 <= i < self.records@.len() ==> #[trigger] self.records@[i].k3 == c
    }

    pub fn new() -> (r: Table)
        ensures
            r.records@ == Seq::<Record>::empty(),
            r.wf(),
            forall|a: u64, b: u64, c: u64| #[trigger] r.opt(a, b, c) is None,
            r.total() == 0,
    {
        let t = Table { records: Vec::new() };
        proof {
            assert(t.records@ =~= Seq::<Record>::empty());
        }
        t
    }
}

/// Whether the record carries exactly this key.
pub open spec fn key_matches(r: Record, k1: u64, k2: u64, k3: u64) -> bool {
    r.k1 == k1 && r.k2 == k2 && r.k3 == k3
}

/// The search result is governed by the indices: `None` exactly when no
/// record matches, and skipping a non-matching prefix does not change it.
proof fn lemma_find_skip_prefix(s: Seq<Record>, k1: u64, k2: u64, k3: u64, i: int)
    requires
        0 <= i <= s.len(),
        forall|j: int| 0 <= j < i ==> !key_matches(#[trigger] s[j], k1, k2, k3),
    ensures
        spec_find(s, k1, k2, k3) == spec_find(s.subrange(i, s.len() as int), k1, k2, k3),
    decreases i,
{
    if i > 0 {
        let tail = s.drop_first();
        assert(!key_matches(s[0], k1, k2, k3));
        assert(forall|j: int| 0 <= j < i - 1 ==> !key_matches(#[trigger] tail[j], k1, k2, k3));
        lemma_find_skip_prefix(tail, k1, k2, k3, i - 1);
        assert(tail.subrange(i - 1, tail.len() as int) =~= s.subrange(i, s.len() as int));
    } else {
        assert(s.subrange(0, s.len() as int) =~= s);
    }
}

/// A search comes back empty exactly when no record matches the key.
pub proof fn lemma_find_none_iff_no_match(s: Seq<Record>, k1: u64, k2: u64, k3: u64)
    ensures
        spec_find(s, k1, k2, k3) is None <==> forall|j: int|
            0 <= j < s.len() ==> !key_matches(#[trigger] s[j], k1, k2, k3),
    decreases s.len(),
{
    if s.len() > 0 {
        let tail = s.drop_first();
        lemma_find_none_iff_no_match(tail, k1, k2, k3);
        if spec_find(s, k1, k2, k3) is None {
            assert forall|j: int| 0 <= j < s.len() implies !key_matches(#[trigger] s[j], k1, k2, k3) by {
                if j > 0 {
                    assert(tail[j - 1] == s[j]);
                }
            }
        } else {
            if !key_matches(s[0], k1, k2, k3) {
                let j = choose|j: int| 0 <= j < tail.len() && key_matches(#[trigger] tail[j], k1, k2, k3);
                assert(s[j + 1] == tail[j]);
            }
        }
    }
}

/// How one key's binding changes when the record at one index is
/// replaced by a record with the same key: that key now maps to the new
/// value, every other key is untouched.
proof fn lemma_find_update_one(s: Seq<Record>, i: int, r: Record, a: u64, b: u64, c: u64)
    requires
        distinct_keys(s),
        0 <= i < s.len(),
        r.k1 == s[i].k1,
        r.k2 == s[i].k2,
        r.k3 == s[i].k3,
    ensures
        spec_find(s.update(i, r), a, b, c) == (
            if key_matches(r, a, b, c) {
                Some(r.value)
            } else {
                spec_find(s, a, b, c)
            }
        ),
    decreases s.len(),
{
    let u = s.update(i, r);
    if i == 0 {
        assert(u[0] == r);
        assert(u.drop_first() =~= s.drop_first());
        if key_matches(r, a, b, c) && !key_matches(s[0], a, b, c) {
            assert(false);
        }
    } else {
        assert(u[0] == s[0]);
        lemma_distinct_drop_first(s);
        assert(u.drop_first() =~= s.drop_first().update(i - 1, r));
        assert(s.drop_first()[i - 1] == s[i]);
        lemma_find_update_one(s.drop_first(), i - 1, r, a, b, c);
        assert(!key_matches(s[0], r.k1, r.k2, r.k3));
    }
}

/// How one key's binding changes when a record is appended: a key already
/// bound keeps its binding, the new record's key gets bound, any other key
/// stays absent.
proof fn lemma_find_push_one(s: Seq<Record>, e: Record, a: u64, b: u64, c: u64)
    ensures
        spec_find(s.push(e), a, b, c) == (
            if spec_find(s, a, b, c) is Some {
                spec_find(s, a, b, c)
            } else if key_matches(e, a, b, c) {
                Some(e.value)
            } else {
                None
            }
        ),
    decreases s.len(),
{
    if s.len() == 0 {
        assert(s.push(e)[0] == e);
        assert(s.push(e).drop_first() =~= Seq::<Record>::empty());
        if key_matches(e, a, b, c) {
            assert(spec_find(s.push(e), a, b, c) == Some(e.value));
        } else {
            assert(spec_find(s.push(e), a, b, c) == spec_find(
                Seq::<Record>::empty(),
                a,
                b,
                c,
            ));
        }
    } else {
        assert(s.push(e)[0] == s[0]);
        assert(s.push(e).drop_first() =~= s.drop_first().push(e));
        lemma_find_push_one(s.drop_first(), e, a, b, c);
        if key_matches(s[0], a, b, c) {
            assert(spec_find(s.push(e), a, b, c) == Some(s[0].value));
            assert(spec_find(s, a, b, c) == Some(s[0].value));
        } else {
            assert(spec_find(s.push(e), a, b, c) == spec_find(s.drop_first().push(e), a, b, c));
            assert(spec_find(s, a, b, c) == spec_find(s.drop_first(), a, b, c));
        }
    }
}

/// How one key's binding changes when the record at one index is removed:
/// that record's key becomes absent, every other key is untouched.
proof fn lemma_find_remove_one(s: Seq<Record>, i: int, a: u64, b: u64, c: u64)
    requires
        distinct_keys(s),
        0 <= i < s.len(),
    ensures
        spec_find(s.remove(i), a, b, c) == (
            if key_matches(s[i], a, b, c) {
                None::<u128>
            } else {
                spec_find(s, a, b, c)
            }
        ),
    decreases s.len(),
{
    let u = s.remove(i);
    if i == 0 {
        assert(u =~= s.drop_first());
        if key_matches(s[0], a, b, c) {
            lemma_find_none_iff_no_match(u, a, b, c);
            assert forall|j: int| 0 <= j < u.len() implies !key_matches(#[trigger] u[j], a, b, c) by {
                assert(u[j] == s[j + 1]);
            }
        }
    } else {
        assert(u[0] == s[0]);
        lemma_distinct_drop_first(s);
        assert(u.drop_first() =~= s.drop_first().remove(i - 1));
        assert(s.drop_first()[i - 1] == s[i]);
        lemma_find_remove_one(s.drop_first(), i - 1, a, b, c);
    }
}

/// Dropping the first record keeps the keys distinct.
proof fn lemma_distinct_drop_first(s: Seq<Record>)
    requires
        distinct_keys(s),
        s.len() > 0,
    ensures
        distinct_keys(s.drop_first()),
{
    let tail = s.drop_first();
    assert forall|p: int, q: int|
        0 <= p < q < tail.len() implies !(#[trigger] tail[p].k1 == #[trigger] tail[q].k1
        && tail[p].k2 == tail[q].k2 && tail[p].k3 == tail[q].k3) by {
        assert(tail[p] == s[p + 1]);
        assert(tail[q] == s[q + 1]);
    }
}

/// A stored record is exactly what searching for its key returns.
pub proof fn lemma_find_at_index(s: Seq<Record>, j: int)
    requires
        distinct_keys(s),
        0 <= j < s.len(),
    ensures
        spec_find(s, s[j].k1, s[j].k2, s[j].k3) == Some(s[j].value),
    decreases s.len(),
{
    if j > 0 {
        assert(!key_matches(s[0], s[j].k1, s[j].k2, s[j].k3));
        lemma_distinct_drop_first(s);
        assert(s.drop_first()[j - 1] == s[j]);
        lemma_find_at_index(s.drop_first(), j - 1);
    }
}

/// The sum of all values is never negative.
proof fn lemma_total_nonneg(s: Seq<Record>)
    ensures
        spec_total(s) >= 0,
    decreases s.len(),
{
    if s.len() > 0 {
        lemma_total_nonneg(s.drop_first());
    }
}

/// Replacing one record's value moves the sum by the difference.
proof fn lemma_total_update(s: Seq<Record>, i: int, r: Record)
    requires
        0 <= i < s.len(),
    ensures
        spec_total(s.update(i, r)) == spec_total(s) - s[i].value + r.value,
    decreases s.len(),
{
    let u = s.update(i, r);
    if i == 0 {
        assert(u[0] == r);
        assert(u.drop_first() =~= s.drop_first());
    } else {
        assert(u[0] == s[0]);
        assert(u.drop_first() =~= s.drop_first().update(i - 1, r));
        assert(s.drop_first()[i - 1] == s[i]);
        lemma_total_update(s.drop_first(), i - 1, r);
    }
}

/// Appending a record adds its value to the sum.
proof fn lemma_total_push(s: Seq<Record>, e: Record)
    ensures
        spec_total(s.push(e)) == spec_total(s) + e.value,
    decreases s.len(),
{
    if s.len() == 0 {
        assert(s.push(e)[0] == e);
        assert(s.push(e).drop_first() =~= Seq::<Record>::empty());
        assert(spec_total(s.push(e)) == e.value + spec_total(Seq::<Record>::empty()));
    } else {
        assert(s.push(e)[0] == s[0]);
        assert(s.push(e).drop_first() =~= s.drop_first().push(e));
        lemma_total_push(s.drop_first(), e);
        assert(spec_total(s.push(e)) == s[0].value + spec_total(s.drop_first().push(e)));
        assert(spec_total(s) == s[0].value + spec_total(s.drop_first()));
    }
}

/// Removing one record subtracts its value from the sum.
proof fn lemma_total_remove(s: Seq<Record>, i: int)
    requires
        0 <= i < s.len(),
    ensures
        spec_total(s.remove(i)) == spec_total(s) - s[i].value,
    decreases s.len(),
{
    let u = s.remove(i);
    if i == 0 {
        assert(u =~= s.drop_first());
    } else {
        assert(u[0] == s[0]);
        assert(u.drop_first() =~= s.drop_first().remove(i - 1));
        assert(s.drop_first()[i - 1] == s[i]);
        lemma_total_remove(s.drop_first(), i - 1);
    }
}

/// A value bound somewhere in the table never exceeds the table's sum.
pub proof fn lemma_find_le_total(s: Seq<Record>, k1: u64, k2: u64, k3: u64)
    requires
        spec_find(s, k1, k2, k3) is Some,
    ensures
        spec_find(s, k1, k2, k3)->Some_0 <= spec_total(s),
    decreases s.len(),
{
    lemma_total_nonneg(s.drop_first());
    if !(s[0].k1 == k1 && s[0].k2 == k2 && s[0].k3 == k3) {
        lemma_find_le_total(s.drop_first(), k1, k2, k3);
        assert(s[0].value >= 0);
    }
}

impl Table {
    /// Index of the record holding the key, if the key is present.
    fn find_index(&self, k1: u64, k2: u64, k3: u64) -> (r: Option<usize>)
        ensures
            match r {
                Some(i) => i < self.records@.len() && key_matches(self.records@[i as int], k1, k2, k3)
                    && self.opt(k1, k2, k3) == Some(self.records@[i as int].value),
                None => self.opt(k1, k2, k3) is None,
            },
    {
        let n = self.records.len();
        let mut i: usize = 0;
        while i < n
            invariant
                n == self.records@.len(),
                i <= n,
                forall|j: int| 0 <= j < i ==> !key_matches(#[trigger] self.records@[j], k1, k2, k3),
            decreases n - i,
        {
            let rec = self.records[i];
            if rec.k1 == k1 && rec.k2 == k2 && rec.k3 == k3 {
                proof {
                    lemma_find_skip_prefix(self.records@, k1, k2, k3, i as int);
                    let rest = self.records@.subrange(i as int, self.records@.len() as int);
                    assert(rest[0] == self.records@[i as int]);
                }
                return Some(i);
            }
            i += 1;
        }
        proof {
            lemma_find_none_iff_no_match(self.records@, k1, k2, k3);
        }
        None
    }

    /// The value stored under the key, zero when the key is absent.
    pub fn lookup(&self, k1: u64, k2: u64, k3: u64) -> (r: u128)
        ensures
            r == self.get(k1, k2, k3),
    {
        match self.find_index(k1, k2, k3) {
            Some(i) => self.records[i].value,
            None => 0,
        }
    }

    /// Whether the key is present.
    pub fn has(&self, k1: u64, k2: u64, k3: u64) -> (r: bool)
        ensures
            r == self.contains(k1, k2, k3),
    {
        self.find_index(k1, k2, k3).is_some()
    }

    /// Bind the key to the value, overwriting any previous binding.
    pub fn set(&mut self, k1: u64, k2: u64, k3: u64, v: u128)
        requires
            old(self).wf(),
        ensures
            final(self).wf(),
            final(self).opt(k1, k2, k3) == Some(v),
            forall|a: u64, b: u64, c: u64|
                !(a == k1 && b == k2 && c == k3) ==> #[trigger] final(self).opt(a, b, c) == old(
                    self,
                ).opt(a, b, c),
            final(self).total() == old(self).total() - old(self).get(k1, k2, k3) + v,
            old(self).keys_shaped(k2, k3) ==> final(self).keys_shaped(k2, k3),
            old(self).keys_shaped3(k3) ==> final(self).keys_shaped3(k3),
            forall|i: int|
                0 <= i < old(self).records@.len() ==> (#[trigger] final(self).records@[i]).k1
                    == old(self).records@[i].k1 && final(self).records@[i].k2 == old(
                    self,
                ).records@[i].k2 && final(self).records@[i].k3 == old(self).records@[i].k3,
            old(self).contains(k1, k2, k3) ==> final(self).records@.len() == old(
                self,
            ).records@.len(),
    {
        let rec = Record { k1, k2, k3, value: v };
        match self.find_index(k1, k2, k3) {
            Some(i) => {
                proof {
                    assert forall|a: u64, b: u64, c: u64| true implies #[trigger] spec_find(
                        self.records@.update(i as int, rec),
                        a,
                        b,
                        c,
                    ) == (if key_matches(rec, a, b, c) {
                        Some(rec.value)
                    } else {
                        spec_find(self.records@, a, b, c)
                    }) by {
                        lemma_find_update_one(self.records@, i as int, rec, a, b, c);
                    }
                    lemma_total_update(self.records@, i as int, rec);
                }
                self.records[i] = rec;
                proof {
                    let s = old(self).records@;
                    assert forall|p: int, q: int|
                        0 <= p < q < self.records@.len() implies !(#[trigger] self.records@[p].k1
                        == #[trigger] self.records@[q].k1 && self.records@[p].k2
                        == self.records@[q].k2 && self.records@[p].k3 == self.records@[q].k3) by {
                        assert(s[p].k1 == self.records@[p].k1 && s[p].k2 == self.records@[p].k2
                            && s[p].k3 == self.records@[p].k3);
                        assert(s[q].k1 == self.records@[q].k1 && s[q].k2 == self.records@[q].k2
                            && s[q].k3 == self.records@[q].k3);
                    }
                }
            },
            None => {
                proof {
                    assert forall|a: u64, b: u64, c: u64| true implies #[trigger] spec_find(
                        self.records@.push(rec),
                        a,
                        b,
                        c,
                    ) == (if spec_find(self.records@, a, b, c) is Some {
                        spec_find(self.records@, a, b, c)
                    } else if key_matches(rec, a, b, c) {
                        Some(rec.value)
                    } else {
                        None
                    }) by {
                        lemma_find_push_one(self.records@, rec, a, b, c);
                    }
                    lemma_total_push(self.records@, rec);
                    lemma_find_none_iff_no_match(self.records@, k1, k2, k3);
                }
                self.records.push(rec);
                proof {
                    let s = old(self).records@;
                    assert forall|p: int, q: int|
                        0 <= p < q < self.records@.len() implies !(#[trigger] self.records@[p].k1
                        == #[trigger] self.records@[q].k1 && self.records@[p].k2
                        == self.records@[q].k2 && self.records@[p].k3 == self.records@[q].k3) by {
                        if q < s.len() {
                            assert(self.records@[p] == s[p]);
                            assert(self.records@[q] == s[q]);
                        } else {
                            assert(self.records@[p] == s[p]);
                            assert(self.records@[q] == rec);
                        }
                    }
                }
            },
        }
    }

    /// Unbind the key; absent keys are left alone.
    pub fn unset(&mut self, k1: u64, k2: u64, k3: u64)
        requires
            old(self).wf(),
        ensures
            final(self).wf(),
            final(self).opt(k1, k2, k3) is None,
            forall|a: u64, b: u64, c: u64|
                !(a == k1 && b == k2 && c == k3) ==> #[trigger] final(self).opt(a, b, c) == old(
                    self,
                ).opt(a, b, c),
            final(self).total() == old(self).total() - old(self).get(k1, k2, k3),
            old(self).keys_shaped(k2, k3) ==> final(self).keys_shaped(k2, k3),
            old(self).keys_shaped3(k3) ==> final(self).keys_shaped3(k3),
    {
        match self.find_index(k1, k2, k3) {
            Some(i) => {
                proof {
                    assert forall|a: u64, b: u64, c: u64| true implies #[trigger] spec_find(
                        self.records@.remove(i as int),
                        a,
                        b,
                        c,
                    ) == (if key_matches(self.records@[i as int], a, b, c) {
                        None::<u128>
                    } else {
                        spec_find(self.records@, a, b, c)
                    }) by {
                        lemma_find_remove_one(self.records@, i as int, a, b, c);
                    }
                    lemma_total_remove(self.records@, i as int);
                    let s = self.records@;
                    let u = s.remove(i as int);
                    s.remove_ensures(i as int);
                    assert forall|p: int, q: int|
                        0 <= p < q < u.len() implies !(#[trigger] u[p].k1 == #[trigger] u[q].k1
                        && u[p].k2 == u[q].k2 && u[p].k3 == u[q].k3) by {
                        let p0: int = if p < i { p } else { p + 1 };
                        let q0: int = if q < i { q } else { q + 1 };
                        assert(u[p] == s[p0]);
                        assert(u[q] == s[q0]);
                    }
                }
                self.records.remove(i);
            },
            None => {},
        }
    }

    /// Add to the value bound to the key, binding it if absent.
    pub fn add_to(&mut self, k1: u64, k2: u64, k3: u64, delta: u128)
        requires
            old(self).wf(),
            old(self).get(k1, k2, k3) + delta <= u128::MAX,
        ensures
            final(self).wf(),
            final(self).opt(k1, k2, k3) == Some((old(self).get(k1, k2, k3) + delta) as u128),
            forall|a: u64, b: u64, c: u64|
                !(a == k1 && b == k2 && c == k3) ==> #[trigger] final(self).opt(a, b, c) == old(
                    self,
                ).opt(a, b, c),
            final(self).total() == old(self).total() + delta,
            old(self).keys_shaped(k2, k3) ==> final(self).keys_shaped(k2, k3),
            old(self).keys_shaped3(k3) ==> final(self).keys_shaped3(k3),
            forall|i: int|
                0 <= i < old(self).records@.len() ==> (#[trigger] final(self).records@[i]).k1
                    == old(self).records@[i].k1 && final(self).records@[i].k2 == old(
                    self,
                ).records@[i].k2 && final(self).records@[i].k3 == old(self).records@[i].k3,
            old(self).contains(k1, k2, k3) ==> final(self).records@.len() == old(
                self,
            ).records@.len(),
    {
        let cur = self.lookup(k1, k2, k3);
        self.set(k1, k2, k3, cur + delta);
    }

    /// Subtract from the value bound to the key; a binding that reaches zero
    /// is removed.
    pub fn sub_from(&mut self, k1: u64, k2: u64, k3: u64, delta: u128)
        requires
            old(self).wf(),
            delta <= old(self).get(k1, k2, k3),
        ensures
            final(self).wf(),
            final(self).get(k1, k2, k3) == old(self).get(k1, k2, k3) - delta,
            final(self).contains(k1, k2, k3) <==> old(self).get(k1, k2, k3) - delta > 0,
            forall|a: u64, b: u64, c: u64|
                !(a == k1 && b == k2 && c == k3) ==> #[trigger] final(self).opt(a, b, c) == old(
                    self,
                ).opt(a, b, c),
            final(self).total() == old(self).total() - delta,
            old(self).keys_shaped(k2, k3) ==> final(self).keys_shaped(k2, k3),
            old(self).keys_shaped3(k3) ==> final(self).keys_shaped3(k3),
    {
        let cur = self.lookup(k1, k2, k3);
        let next = cur - delta;
        if next == 0 {
            self.unset(k1, k2, k3);
        } else {
            self.set(k1, k2, k3, next);
        }
    }

    /// How many keys are bound.
    pub fn len(&self) -> (r: usize)
        ensures
            r == self.records@.len(),
    {
        self.records.len()
    }

    /// The record at a position, for walking the table.
    pub fn record_at(&self, i: usize) -> (r: Record)
        requires
            i < self.records@.len(),
        ensures
            r == self.records@[i as int],
    {
        self.records[i]
    }
}


impl Table {
    /// An element-for-element copy of the table.
    pub fn duplicate(&self) -> (r: Table)
        ensures
            r.records@ == self.records@,
    {
        let n = self.records.len();
        let mut records: Vec<Record> = Vec::new();
        let mut i: usize = 0;
        while i < n
            invariant
                n == self.records@.len(),
                i <= n,
                records@ == self.records@.subrange(0, i as int),
            decreases n - i,
        {
            records.push(self.records[i]);
            proof {
                assert(self.records@.subrange(0, i as int).push(self.records@[i as int])
                    =~= self.records@.subrange(0, i as int + 1));
            }
            i += 1;
        }
        proof {
            assert(self.records@.subrange(0, n as int) =~= self.records@);
        }
        Table { records }
    }
}

} // verus!
