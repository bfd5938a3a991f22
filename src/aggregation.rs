//! Per-file and global aggregates: how many records fell under each key.

use crate::key::{AggregateKey, KeyView};
use vstd::multiset::Multiset;
use vstd::prelude::*;

verus! {

broadcast use vstd::multiset::group_multiset_axioms;

/// `n` occurrences of the key `k`.
pub open spec fn repeat(k: KeyView, n: nat) -> Multiset<KeyView>
    decreases n,
{
    if n == 0 {
        Multiset::empty()
    } else {
        repeat(k, (n - 1) as nat).insert(k)
    }
}

/// The records that a list of (key, count) entries stands for.
pub open spec fn entries_view(s: Seq<(AggregateKey, u64)>) -> Multiset<KeyView>
    decreases s.len(),
{
    if s.len() == 0 {
        Multiset::empty()
    } else {
        entries_view(s.drop_last()).add(repeat(s.last().0@, s.last().1 as nat))
    }
}

/// No key stands in two entries.
pub open spec fn keys_unique(s: Seq<(AggregateKey, u64)>) -> bool {
    forall|i: int, j: int| 0 <= i < j < s.len() ==> s[i].0@ != s[j].0@
}

/// The record count of a file, or of a whole run, and how many of those records
/// fell under each key. One entry per key, with a positive count.
#[derive(Debug)]
pub struct FileAggregation {
    pub num_raw_records: u64,
    pub aggregation: Vec<(AggregateKey, u64)>,
}

impl View for FileAggregation {
    type V = Multiset<KeyView>;

    open spec fn view(&self) -> Multiset<KeyView> {
        entries_view(self.aggregation@)
    }
}

pub proof fn lemma_repeat(k: KeyView, n: nat)
    ensures
        repeat(k, n).len() == n,
        repeat(k, n).count(k) == n,
        forall|v: KeyView| v != k ==> #[trigger] repeat(k, n).count(v) == 0,
    decreases n,
{
    broadcast use vstd::multiset::group_multiset_properties;

    if n > 0 {
        lemma_repeat(k, (n - 1) as nat);
    }
}

proof fn lemma_repeat_add(k: KeyView, a: nat, b: nat)
    ensures
        repeat(k, a + b) == repeat(k, a).add(repeat(k, b)),
{
    lemma_repeat(k, a);
    lemma_repeat(k, b);
    lemma_repeat(k, a + b);
    assert(repeat(k, a + b) =~= repeat(k, a).add(repeat(k, b)));
}

/// With unique keys, the count of an entry's key is that entry's count.
proof fn lemma_entry_count(s: Seq<(AggregateKey, u64)>, i: int)
    requires
        keys_unique(s),
        0 <= i < s.len(),
    ensures
        entries_view(s).count(s[i].0@) == s[i].1,
    decreases s.len(),
{
    let k = s[i].0@;
    lemma_repeat(s.last().0@, s.last().1 as nat);
    if i == s.len() - 1 {
        lemma_absent_count(s.drop_last(), k);
    } else {
        lemma_entry_count(s.drop_last(), i);
    }
}

/// A key that no entry holds has count zero.
proof fn lemma_absent_count(s: Seq<(AggregateKey, u64)>, k: KeyView)
    requires
        forall|i: int| 0 <= i < s.len() ==> s[i].0@ != k,
    ensures
        entries_view(s).count(k) == 0,
    decreases s.len(),
{
    if s.len() > 0 {
        lemma_repeat(s.last().0@, s.last().1 as nat);
        lemma_absent_count(s.drop_last(), k);
    }
}

/// Raising the count of one entry by `d` adds `d` occurrences of its key.
proof fn lemma_raise_entry(s: Seq<(AggregateKey, u64)>, i: int, e: (AggregateKey, u64), d: nat)
    requires
        0 <= i < s.len(),
        e.0@ == s[i].0@,
        e.1 == s[i].1 + d,
    ensures
        entries_view(s.update(i, e)) == entries_view(s).add(repeat(e.0@, d)),
    decreases s.len(),
{
    let t = s.update(i, e);
    if i == s.len() - 1 {
        assert(t.drop_last() =~= s.drop_last());
        lemma_repeat_add(e.0@, s[i].1 as nat, d);
    } else {
        assert(t.drop_last() =~= s.drop_last().update(i, e));
        lemma_raise_entry(s.drop_last(), i, e, d);
    }
    assert(entries_view(t) =~= entries_view(s).add(repeat(e.0@, d)));
}

/// The records of a prefix of the entries are no more than those of all of them.
proof fn lemma_prefix_len(s: Seq<(AggregateKey, u64)>, j: int)
    requires
        0 <= j <= s.len(),
    ensures
        entries_view(s.take(j)).len() <= entries_view(s).len(),
    decreases s.len(),
{
    if j == s.len() {
        assert(s.take(j) =~= s);
    } else {
        assert(s.take(j) =~= s.drop_last().take(j));
        lemma_prefix_len(s.drop_last(), j);
    }
}

proof fn lemma_take_next(s: Seq<(AggregateKey, u64)>, j: int)
    requires
        0 <= j < s.len(),
    ensures
        entries_view(s.take(j + 1)) == entries_view(s.take(j)).add(repeat(s[j].0@, s[j].1 as nat)),
{
    assert(s.take(j + 1).drop_last() =~= s.take(j));
}

/// Grouping is by key: in a well-formed aggregate two entries with the same key
/// are one entry, and a key's count is that entry's count. Counting a record under
/// a key already present raises that entry (see `add_record`).
pub proof fn lemma_one_entry_per_key(a: &FileAggregation, i: int, j: int)
    requires
        a.wf(),
        0 <= i < a.aggregation@.len(),
        0 <= j < a.aggregation@.len(),
        a.aggregation@[i].0@ == a.aggregation@[j].0@,
    ensures
        i == j,
        a@.count(a.aggregation@[i].0@) == a.aggregation@[i].1,
{
    lemma_entry_count(a.aggregation@, i);
}

/// Merging aggregates is commutative and associative.
pub proof fn lemma_merge_commutes(a: &FileAggregation, b: &FileAggregation, c: &FileAggregation)
    ensures
        a@.add(b@) == b@.add(a@),
        a@.add(b@).add(c@) == a@.add(b@.add(c@)),
{
    assert(a@.add(b@) =~= b@.add(a@));
    assert(a@.add(b@).add(c@) =~= a@.add(b@.add(c@)));
}

impl FileAggregation {
    /// One entry per key, each with a positive count, and the record count is
    /// the number of records that the entries stand for.
    pub open spec fn wf(&self) -> bool {
        &&& keys_unique(self.aggregation@)
        &&& forall|i: int| 0 <= i < self.aggregation@.len() ==> #[trigger] self.aggregation@[i].1 > 0
        &&& self.num_raw_records == self@.len()
    }

    /// An aggregate of no records.
    pub fn new() -> (r: FileAggregation)
        ensures
            r.wf(),
            r@ == Multiset::<KeyView>::empty(),
            r.num_raw_records == 0,
    {
        FileAggregation { num_raw_records: 0, aggregation: Vec::new() }
    }

    /// The position of the entry for `key`, if there is one.
    fn find(&self, key: &AggregateKey) -> (r: Option<usize>)
        ensures
            match r {
                Some(i) => i < self.aggregation@.len() && self.aggregation@[i as int].0@ == key@,
                None => forall|i: int|
                    0 <= i < self.aggregation@.len() ==> self.aggregation@[i].0@ != key@,
            },
    {
        let mut i: usize = 0;
        while i < self.aggregation.len()
            invariant
                i <= self.aggregation@.len(),
                forall|j: int| 0 <= j < i ==> self.aggregation@[j].0@ != key@,
            decreases self.aggregation@.len() - i,
        {
            if self.aggregation[i].0.same_key(key) {
                return Some(i);
            }
            i = i + 1;
        }
        None
    }

    /// Counts `n` more records under `key`.
    pub fn add_count(&mut self, key: AggregateKey, n: u64)
        requires
            old(self).wf(),
            n > 0,
            old(self).num_raw_records + n <= u64::MAX,
        ensures
            final(self).wf(),
            final(self)@ == old(self)@.add(repeat(key@, n as nat)),
            final(self).num_raw_records == old(self).num_raw_records + n,
    {
        proof {
            lemma_repeat(key@, n as nat);
        }
        match self.find(&key) {
            Some(i) => {
                let c = self.aggregation[i].1;
                proof {
                    lemma_entry_count(self.aggregation@, i as int);
                }
                let ghost s = self.aggregation@;
                self.aggregation.set(i, (key, c + n));
                proof {
                    lemma_raise_entry(s, i as int, (key, (c + n) as u64), n as nat);
                }
            },
            None => {
                let ghost s = self.aggregation@;
                self.aggregation.push((key, n));
                proof {
                    assert(self.aggregation@.drop_last() =~= s);
                }
            },
        }
        self.num_raw_records = self.num_raw_records + n;
    }

    /// Counts one more record under `key`.
    pub fn add_record(&mut self, key: AggregateKey)
        requires
            old(self).wf(),
            old(self).num_raw_records < u64::MAX,
        ensures
            final(self).wf(),
            final(self)@ == old(self)@.insert(key@),
            final(self).num_raw_records == old(self).num_raw_records + 1,
    {
        let ghost k = key@;
        self.add_count(key, 1);
        proof {
            lemma_repeat(k, 1);
            assert(repeat(k, 1) =~= Multiset::singleton(k));
        }
    }

    /// Adds the records of `other` to this aggregate: the record counts add, and
    /// so do the counts of each key.
    pub fn merge(&mut self, other: &FileAggregation)
        requires
            old(self).wf(),
            other.wf(),
            old(self).num_raw_records + other.num_raw_records <= u64::MAX,
        ensures
            final(self).wf(),
            final(self)@ == old(self)@.add(other@),
            final(self).num_raw_records == old(self).num_raw_records + other.num_raw_records,
    {
        let ghost start = self@;
        let ghost s = other.aggregation@;
        let mut j: usize = 0;
        while j < other.aggregation.len()
            invariant
                self.wf(),
                other.wf(),
                s == other.aggregation@,
                j <= s.len(),
                self@ == start.add(entries_view(s.take(j as int))),
                self.num_raw_records == start.len() + entries_view(s.take(j as int)).len(),
                start.len() + other.num_raw_records <= u64::MAX,
            decreases s.len() - j,
        {
            proof {
                lemma_take_next(s, j as int);
                lemma_prefix_len(s, j + 1);
                lemma_repeat(s[j as int].0@, s[j as int].1 as nat);
            }
            let key = other.aggregation[j].0.clone();
            let n = other.aggregation[j].1;
            self.add_count(key, n);
            j = j + 1;
            proof {
                assert(self@ =~= start.add(entries_view(s.take(j as int))));
            }
        }
        proof {
            assert(s.take(j as int) =~= s);
        }
    }

    /// Checks `wf`: unique keys, positive counts, and a record count that is the
    /// sum of the counts.
    pub fn is_well_formed(&self) -> (r: bool)
        ensures
            r == self.wf(),
    {
        let ghost s = self.aggregation@;
        let mut total: u64 = 0;
        let mut i: usize = 0;
        while i < self.aggregation.len()
            invariant
                s == self.aggregation@,
                i <= s.len(),
                total == entries_view(s.take(i as int)).len(),
                forall|a: int, b: int| 0 <= a < b < i ==> s[a].0@ != s[b].0@,
                forall|a: int| 0 <= a < i ==> #[trigger] s[a].1 > 0,
            decreases s.len() - i,
        {
            proof {
                lemma_take_next(s, i as int);
                lemma_repeat(s[i as int].0@, s[i as int].1 as nat);
                lemma_prefix_len(s, i + 1);
            }
            let c = self.aggregation[i].1;
            if c == 0 {
                return false;
            }
            if c > u64::MAX - total {
                return false;
            }
            let mut j: usize = 0;
            while j < i
                invariant
                    s == self.aggregation@,
                    j <= i < s.len(),
                    forall|a: int| 0 <= a < j ==> s[a].0@ != s[i as int].0@,
                decreases i - j,
            {
                if self.aggregation[j].0.same_key(&self.aggregation[i].0) {
                    return false;
                }
                j = j + 1;
            }
            total = total + c;
            i = i + 1;
        }
        proof {
            assert(s.take(i as int) =~= s);
        }
        total == self.num_raw_records
    }

    /// How many records fell under `key`.
    pub fn count(&self, key: &AggregateKey) -> (r: u64)
        requires
            self.wf(),
        ensures
            r == self@.count(key@),
    {
        match self.find(key) {
            Some(i) => {
                proof {
                    lemma_entry_count(self.aggregation@, i as int);
                }
                self.aggregation[i].1
            },
            None => {
                proof {
                    lemma_absent_count(self.aggregation@, key@);
                }
                0
            },
        }
    }

    /// The number of distinct keys.
    pub fn num_aggregates(&self) -> (r: usize)
        ensures
            r == self.aggregation@.len(),
    {
        self.aggregation.len()
    }
}

} // verus!
