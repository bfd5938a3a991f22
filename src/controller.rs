//! The controller: hands files to workers, merges their reports into the global
//! aggregate, reassigns a worker as soon as it reports, and knows when the run
//! is complete.

use crate::aggregation::FileAggregation;
use crate::key::KeyView;
use crate::worker::{lemma_records_are_parsed_lines, parsed_lines, records_of, AggregationMessage};
use vstd::multiset::Multiset;
use vstd::prelude::*;

verus! {

broadcast use vstd::multiset::group_multiset_axioms;

/// The assignment of a file, by its position in the file list, to a worker.
#[derive(Clone, Copy, Debug, PartialEq, Eq, Structural)]
pub struct Dispatch {
    pub worker: usize,
    pub file: usize,
}

/// A report that breaks the protocol between workers and controller.
#[derive(Clone, Copy, Debug, PartialEq, Eq, Structural)]
pub enum ControlError {
    /// The sender is not one of the controller's workers.
    UnknownWorker,
    /// The sender had no file in flight.
    UnexpectedReport,
    /// The global record count would exceed `u64::MAX`.
    CountOverflow,
}

/// How many workers have a file in flight.
pub open spec fn busy_count(s: Seq<Option<usize>>) -> nat
    decreases s.len(),
{
    if s.len() == 0 {
        0
    } else {
        busy_count(s.drop_last()) + if s.last() is Some {
            1nat
        } else {
            0nat
        }
    }
}

/// The sum of the reports of the given files, in the given order.
pub open spec fn sum_reports(order: Seq<int>, reports: Map<int, Multiset<KeyView>>) -> Multiset<
    KeyView,
>
    decreases order.len(),
{
    if order.len() == 0 {
        Multiset::empty()
    } else {
        sum_reports(order.drop_last(), reports).add(reports[order.last()])
    }
}

/// The sum of all per-file aggregates, file by file in list order.
pub open spec fn sum_all(parts: Seq<Multiset<KeyView>>) -> Multiset<KeyView>
    decreases parts.len(),
{
    if parts.len() == 0 {
        Multiset::empty()
    } else {
        sum_all(parts.drop_last()).add(parts.last())
    }
}

proof fn lemma_busy_update(s: Seq<Option<usize>>, i: int, v: Option<usize>)
    requires
        0 <= i < s.len(),
    ensures
        busy_count(s.update(i, v)) + (if s[i] is Some { 1nat } else { 0nat }) == busy_count(s) + (
        if v is Some {
            1nat
        } else {
            0nat
        }),
    decreases s.len(),
{
    let t = s.update(i, v);
    if i == s.len() - 1 {
        assert(t.drop_last() =~= s.drop_last());
    } else {
        assert(t.drop_last() =~= s.drop_last().update(i, v));
        lemma_busy_update(s.drop_last(), i, v);
    }
}

proof fn lemma_none_busy(s: Seq<Option<usize>>)
    requires
        busy_count(s) == 0,
    ensures
        forall|w: int| 0 <= w < s.len() ==> s[w] is None,
    decreases s.len(),
{
    if s.len() > 0 {
        lemma_none_busy(s.drop_last());
        assert forall|w: int| 0 <= w < s.len() implies s[w] is None by {
            if w < s.len() - 1 {
                assert(s[w] == s.drop_last()[w]);
            }
        }
    }
}

/// Taking one file out of the order takes its report out of the sum.
proof fn lemma_sum_remove(order: Seq<int>, reports: Map<int, Multiset<KeyView>>, j: int)
    requires
        0 <= j < order.len(),
    ensures
        sum_reports(order, reports) == sum_reports(order.remove(j), reports).add(
            reports[order[j]],
        ),
    decreases order.len(),
{
    if j < order.len() - 1 {
        let r = order.remove(j);
        assert(r.drop_last() =~= order.drop_last().remove(j));
        assert(r.last() == order.last());
        lemma_sum_remove(order.drop_last(), reports, j);
        assert(sum_reports(order, reports) =~= sum_reports(r, reports).add(reports[order[j]]));
    } else {
        assert(order.remove(j) =~= order.drop_last());
    }
}


/// The sum depends only on the reports of the files in the order.
proof fn lemma_sum_frame(order: Seq<int>, r1: Map<int, Multiset<KeyView>>, r2: Map<int, Multiset<KeyView>>)
    requires
        forall|i: int| 0 <= i < order.len() ==> r1[#[trigger] order[i]] == r2[order[i]],
    ensures
        sum_reports(order, r1) == sum_reports(order, r2),
    decreases order.len(),
{
    if order.len() > 0 {
        lemma_sum_frame(order.drop_last(), r1, r2);
        assert(r1[order[order.len() - 1]] == r2[order[order.len() - 1]]);
    }
}

/// The size of a sum is the sum of the sizes.
proof fn lemma_sum_all_len(parts: Seq<Multiset<KeyView>>, files: Seq<Seq<String>>)
    requires
        parts.len() == files.len(),
        forall|f: int| 0 <= f < parts.len() ==> #[trigger] parts[f] == records_of(files[f]),
    ensures
        sum_all(parts).len() == total_parsed_lines(files),
    decreases parts.len(),
{
    if parts.len() > 0 {
        lemma_sum_all_len(parts.drop_last(), files.drop_last());
        lemma_records_are_parsed_lines(files.last());
        assert(parts[parts.len() - 1] == records_of(files[files.len() - 1]));
    }
}

/// Taking one file out of the list takes its aggregate out of the sum.
proof fn lemma_sum_all_remove(parts: Seq<Multiset<KeyView>>, j: int)
    requires
        0 <= j < parts.len(),
    ensures
        sum_all(parts) == sum_all(parts.remove(j)).add(parts[j]),
    decreases parts.len(),
{
    if j < parts.len() - 1 {
        let r = parts.remove(j);
        assert(r.drop_last() =~= parts.drop_last().remove(j));
        assert(r.last() == parts.last());
        lemma_sum_all_remove(parts.drop_last(), j);
        assert(sum_all(parts) =~= sum_all(r).add(parts[j]));
    } else {
        assert(parts.remove(j) =~= parts.drop_last());
    }
}

/// The sum of per-file aggregates does not depend on the order of the files.
proof fn lemma_sum_all_permutation(a: Seq<Multiset<KeyView>>, b: Seq<Multiset<KeyView>>)
    requires
        a.to_multiset() == b.to_multiset(),
    ensures
        sum_all(a) == sum_all(b),
    decreases a.len(),
{
    broadcast use vstd::seq_lib::group_to_multiset_ensures;

    vstd::seq_lib::to_multiset_len(a);
    vstd::seq_lib::to_multiset_len(b);
    if a.len() > 0 {
        let x = a.last();
        let a2 = a.drop_last();
        assert(a2.push(x) =~= a);
        vstd::seq_lib::to_multiset_build(a2, x);
        vstd::seq_lib::to_multiset_contains(b, x);
        let j = b.index_of(x);
        let b2 = b.remove(j);
        vstd::seq_lib::to_multiset_remove(b, j);
        assert(b2.to_multiset() =~= a2.to_multiset());
        lemma_sum_all_permutation(a2, b2);
        lemma_sum_all_remove(b, j);
    }
}

/// The number of lines that parse, over all files of a run.
pub open spec fn total_parsed_lines(files: Seq<Seq<String>>) -> nat
    decreases files.len(),
{
    if files.len() == 0 {
        0
    } else {
        total_parsed_lines(files.drop_last()) + parsed_lines(files.last())
    }
}

/// Merging the reports of the same files in any two orders gives the same sum.
pub proof fn lemma_sum_permutation(a: Seq<int>, b: Seq<int>, reports: Map<int, Multiset<KeyView>>)
    requires
        a.no_duplicates(),
        b.no_duplicates(),
        a.to_set() == b.to_set(),
    ensures
        sum_reports(a, reports) == sum_reports(b, reports),
    decreases a.len(),
{
    if a.len() == 0 {
        if b.len() > 0 {
            assert(b.to_set().contains(b[0]));
        }
    } else {
        let x = a.last();
        assert(a.to_set().contains(x));
        let j = b.index_of(x);
        let a2 = a.drop_last();
        let b2 = b.remove(j);
        assert forall|y: int| a2.to_set().contains(y) <==> b2.to_set().contains(y) by {
            if a2.to_set().contains(y) {
                let k = a2.index_of(y);
                assert(a.to_set().contains(y));
                assert(b.contains(y));
                let m = b.index_of(y);
                if m < j {
                    assert(b2[m] == y);
                } else {
                    assert(b2[m - 1] == y);
                }
            }
            if b2.to_set().contains(y) {
                let m = b2.index_of(y);
                let mm = if m < j { m } else { m + 1 };
                assert(b[mm] == y);
                assert(b.to_set().contains(y));
                assert(a.contains(y));
                let k = a.index_of(y);
                assert(k != a.len() - 1);
                assert(a2[k] == y);
            }
        }
        assert(a2.to_set() =~= b2.to_set());
        assert(a2.no_duplicates());
        assert(b2.no_duplicates()) by {
            assert forall|p: int, q: int| 0 <= p < b2.len() && 0 <= q < b2.len() && p != q implies b2[p]
                != b2[q] by {
                let pp = if p < j { p } else { p + 1 };
                let qq = if q < j { q } else { q + 1 };
                assert(b2[p] == b[pp] && b2[q] == b[qq]);
            }
        }
        lemma_sum_permutation(a2, b2, reports);
        lemma_sum_remove(b, reports, j);
    }
}

/// Summing the first `n` files in list order.
proof fn lemma_sum_in_list_order(parts: Seq<Multiset<KeyView>>, reports: Map<int, Multiset<KeyView>>)
    requires
        forall|f: int| 0 <= f < parts.len() ==> reports[f] == parts[f],
    ensures
        sum_reports(Seq::new(parts.len(), |i: int| i), reports) == sum_all(parts),
    decreases parts.len(),
{
    if parts.len() > 0 {
        let n = parts.len();
        assert(Seq::new(n, |i: int| i).drop_last() =~= Seq::new((n - 1) as nat, |i: int| i));
        lemma_sum_in_list_order(parts.drop_last(), reports);
    }
}

/// The controller of a run over `num_files` files with one worker per entry of
/// `assigned`. Files are handed out in list order; `next_file` is the first not
/// yet handed out, `assigned[w]` the file that worker `w` has in flight, and
/// `in_flight` how many workers have one; `failed_files` counts the merged
/// reports on files that could not be read in full. The ghost `merged` lists the files whose
/// reports were merged, in the order they came, and `reports` what each reported.
pub struct AggregationController {
    pub num_files: usize,
    pub next_file: usize,
    pub assigned: Vec<Option<usize>>,
    pub in_flight: usize,
    pub failed_files: usize,
    pub global: FileAggregation,
    pub merged: Ghost<Seq<int>>,
    pub reports: Ghost<Map<int, Multiset<KeyView>>>,
}

impl AggregationController {
    /// Every file before `next_file` is either merged, exactly once, or in flight
    /// at exactly one worker; a worker is idle only once every file is handed out;
    /// and the global aggregate is the sum of the merged reports.
    pub open spec fn wf(&self) -> bool {
        let merged = self.merged@;
        let a = self.assigned@;
        &&& a.len() >= 1
        &&& self.next_file <= self.num_files
        &&& self.in_flight == busy_count(a)
        &&& merged.len() + self.in_flight == self.next_file
        &&& self.failed_files <= merged.len()
        &&& merged.no_duplicates()
        &&& forall|i: int| 0 <= i < merged.len() ==> 0 <= #[trigger] merged[i] < self.next_file
        &&& forall|w: int|
            0 <= w < a.len() && #[trigger] a[w] is Some ==> a[w]->0 < self.next_file
                && !merged.contains(a[w]->0 as int)
        &&& forall|w1: int, w2: int|
            0 <= w1 < a.len() && 0 <= w2 < a.len() && w1 != w2 && #[trigger] a[w1] is Some
                && #[trigger] a[w2] is Some ==> a[w1]->0 != a[w2]->0
        &&& forall|f: int|
            0 <= f < self.next_file ==> #[trigger] merged.contains(f) || exists|w: int|
                0 <= w < a.len() && #[trigger] a[w] == Some(f as usize)
        &&& forall|w: int| 0 <= w < a.len() && #[trigger] a[w] is None ==> self.next_file == self.num_files
        &&& self.global.wf()
        &&& self.global@ == sum_reports(merged, self.reports@)
    }

    pub open spec fn num_workers(&self) -> nat {
        self.assigned@.len()
    }

    pub open spec fn finished(&self) -> bool {
        self.in_flight == 0
    }

    /// Starts a run: each worker in turn, from 0, is given the next file, until
    /// the workers or the files run out. Returns the controller and those
    /// dispatches.
    pub fn new(num_workers: usize, num_files: usize) -> (r: (AggregationController, Vec<Dispatch>))
        requires
            num_workers >= 1,
        ensures
            r.0.wf(),
            r.0.num_files == num_files,
            r.0.num_workers() == num_workers,
            r.0.merged@ == Seq::<int>::empty(),
            r.0.global@ == Multiset::<KeyView>::empty(),
            r.0.global.num_raw_records == 0,
            r.0.failed_files == 0,
            r.0.next_file == r.1@.len(),
            r.0.in_flight == r.1@.len(),
            forall|w: int| 0 <= w < num_workers ==> #[trigger] r.0.assigned@[w] == if w < num_files {
                Some(w as usize)
            } else {
                None::<usize>
            },
            r.1@.len() == if num_workers < num_files { num_workers } else { num_files },
            forall|i: int| 0 <= i < r.1@.len() ==> #[trigger] r.1@[i] == (Dispatch { worker: i as usize, file: i as usize }),
    {
        let mut assigned: Vec<Option<usize>> = Vec::new();
        let mut dispatches: Vec<Dispatch> = Vec::new();
        let mut next: usize = 0;
        let mut w: usize = 0;
        while w < num_workers
            invariant
                w <= num_workers,
                assigned@.len() == w,
                next <= num_files,
                next <= w,
                next == if w < num_files { w } else { num_files },
                busy_count(assigned@) == next,
                dispatches@.len() == next,
                forall|i: int| 0 <= i < next ==> #[trigger] dispatches@[i] == (Dispatch { worker: i as usize, file: i as usize }),
                forall|i: int| 0 <= i < w ==> #[trigger] assigned@[i] == if i < num_files { Some(i as usize) } else { None::<usize> },
            decreases num_workers - w,
        {
            let ghost before = assigned@;
            if next < num_files {
                assigned.push(Some(next));
                dispatches.push(Dispatch { worker: w, file: next });
                next = next + 1;
            } else {
                assigned.push(None);
            }
            proof {
                assert(assigned@.drop_last() =~= before);
            }
            w = w + 1;
        }
        let c = AggregationController {
            num_files,
            next_file: next,
            assigned,
            in_flight: next,
            failed_files: 0,
            global: FileAggregation::new(),
            merged: Ghost(Seq::empty()),
            reports: Ghost(Map::empty()),
        };
        proof {
            assert forall|f: int| 0 <= f < c.next_file implies #[trigger] c.merged@.contains(f)
                || exists|w: int| 0 <= w < c.assigned@.len() && #[trigger] c.assigned@[w] == Some(f as usize) by {
                assert(c.assigned@[f] == Some(f as usize));
            }
        }
        (c, dispatches)
    }


    /// Merges a worker's report on the file it had in flight. The worker is then
    /// given the next file, if any is left, and is otherwise idle. A report from
    /// an unknown worker or from one with no file in flight, or one that would
    /// take the record count past `u64::MAX`, is refused and changes nothing.
    pub fn on_report(&mut self, msg: AggregationMessage) -> (r: Result<Option<Dispatch>, ControlError>)
        requires
            old(self).wf(),
            msg.file_aggregation.wf(),
        ensures
            final(self).wf(),
            final(self).num_files == old(self).num_files,
            final(self).num_workers() == old(self).num_workers(),
            msg.sender_id >= old(self).num_workers() ==> r == Err::<Option<Dispatch>, ControlError>(ControlError::UnknownWorker),
            msg.sender_id < old(self).num_workers() && old(self).assigned@[msg.sender_id as int] is None
                ==> r == Err::<Option<Dispatch>, ControlError>(ControlError::UnexpectedReport),
            msg.sender_id < old(self).num_workers() && old(self).assigned@[msg.sender_id as int] is Some
                && old(self).global.num_raw_records + msg.file_aggregation.num_raw_records > u64::MAX
                ==> r == Err::<Option<Dispatch>, ControlError>(ControlError::CountOverflow),
            r is Err ==> *final(self) == *old(self),
            r is Ok <==> (msg.sender_id < old(self).num_workers() && old(self).assigned@[msg.sender_id as int] is Some
                && old(self).global.num_raw_records + msg.file_aggregation.num_raw_records <= u64::MAX),
            r is Ok ==> ({
                let w = msg.sender_id as int;
                let f = old(self).assigned@[w]->0 as int;
                let n = old(self).next_file;
                &&& final(self).merged@ == old(self).merged@.push(f)
                &&& final(self).reports@ == old(self).reports@.insert(f, msg.file_aggregation@)
                &&& final(self).global@ == old(self).global@.add(msg.file_aggregation@)
                &&& final(self).global.num_raw_records == old(self).global.num_raw_records
                    + msg.file_aggregation.num_raw_records
                &&& final(self).failed_files == old(self).failed_files + if msg.read_failed {
                    1int
                } else {
                    0int
                }
                &&& n < old(self).num_files ==> r == Ok::<Option<Dispatch>, ControlError>(Some(Dispatch { worker: msg.sender_id, file: n }))
                    && final(self).next_file == n + 1
                    && final(self).assigned@ == old(self).assigned@.update(w, Some(n))
                &&& n == old(self).num_files ==> r == Ok::<Option<Dispatch>, ControlError>(None)
                    && final(self).next_file == n
                    && final(self).assigned@ == old(self).assigned@.update(w, None)
            }),
    {
        let w = msg.sender_id;
        if w >= self.assigned.len() {
            return Err(ControlError::UnknownWorker);
        }
        let f = match self.assigned[w] {
            Some(f) => f,
            None => {
                return Err(ControlError::UnexpectedReport);
            },
        };
        if msg.file_aggregation.num_raw_records > u64::MAX - self.global.num_raw_records {
            return Err(ControlError::CountOverflow);
        }
        let ghost old_merged = self.merged@;
        let ghost old_reports = self.reports@;
        let ghost old_assigned = self.assigned@;
        self.global.merge(&msg.file_aggregation);
        self.merged = Ghost(self.merged@.push(f as int));
        self.reports = Ghost(self.reports@.insert(f as int, msg.file_aggregation@));
        proof {
            lemma_sum_frame(old_merged, old_reports, self.reports@);
            assert(self.merged@.drop_last() =~= old_merged);
        }
        let ghost n0 = self.next_file;
        proof {
            lemma_busy_update(old_assigned, w as int, None);
        }
        if msg.read_failed {
            self.failed_files = self.failed_files + 1;
        }
        let r = if self.next_file < self.num_files {
            let n = self.next_file;
            self.assigned.set(w, Some(n));
            self.next_file = n + 1;
            proof {
                lemma_busy_update(old_assigned, w as int, Some(n));
            }
            Some(Dispatch { worker: w, file: n })
        } else {
            self.assigned.set(w, None);
            self.in_flight = self.in_flight - 1;
            None
        };
        proof {
            let a = self.assigned@;
            let m = self.merged@;
            assert forall|g: int| 0 <= g < self.next_file implies #[trigger] m.contains(g)
                || exists|v: int| 0 <= v < a.len() && #[trigger] a[v] == Some(g as usize) by {
                if g == f {
                    assert(m[m.len() - 1] == g);
                } else if g < n0 {
                    if old_merged.contains(g) {
                        let i = old_merged.index_of(g);
                        assert(m[i] == g);
                    } else {
                        let v = choose|v: int| 0 <= v < old_assigned.len() && #[trigger] old_assigned[v] == Some(g as usize);
                        assert(v != w);
                        assert(a[v] == Some(g as usize));
                    }
                } else {
                    assert(a[w as int] == Some(g as usize));
                }
            }
            assert forall|v: int| 0 <= v < a.len() && #[trigger] a[v] is Some implies a[v]->0 < self.next_file
                && !m.contains(a[v]->0 as int) by {
                if v != w {
                    assert(old_assigned[v] is Some);
                    assert(old_assigned[v]->0 != f);
                    if m.contains(a[v]->0 as int) {
                        let i = m.index_of(a[v]->0 as int);
                        if i < old_merged.len() {
                            assert(old_merged[i] == m[i]);
                            assert(old_merged.contains(a[v]->0 as int));
                        }
                    }
                } else {
                    if m.contains(a[v]->0 as int) {
                        let i = m.index_of(a[v]->0 as int);
                        if i < old_merged.len() {
                            assert(old_merged[i] == m[i]);
                        }
                    }
                }
            }
            assert forall|v1: int, v2: int|
                0 <= v1 < a.len() && 0 <= v2 < a.len() && v1 != v2 && #[trigger] a[v1] is Some
                    && #[trigger] a[v2] is Some implies a[v1]->0 != a[v2]->0 by {
                if v1 != w && v2 != w {
                    assert(old_assigned[v1] is Some && old_assigned[v2] is Some);
                } else if v1 == w {
                    assert(old_assigned[v2] is Some);
                } else {
                    assert(old_assigned[v1] is Some);
                }
            }
            assert forall|v: int| 0 <= v < a.len() && #[trigger] a[v] is None implies self.next_file
                == self.num_files by {
                if v != w {
                    assert(old_assigned[v] is None);
                }
            }
            assert(m.no_duplicates()) by {
                assert forall|i: int, j: int| 0 <= i < m.len() && 0 <= j < m.len() && i != j implies m[i] != m[j] by {
                    if i < old_merged.len() && j < old_merged.len() {
                        assert(old_merged[i] == m[i] && old_merged[j] == m[j]);
                    } else if i < old_merged.len() {
                        assert(old_merged[i] == m[i]);
                        assert(old_merged.contains(m[i]));
                    } else if j < old_merged.len() {
                        assert(old_merged[j] == m[j]);
                        assert(old_merged.contains(m[j]));
                    }
                }
            }
        }
        Ok(r)
    }

    /// Whether every file handed out has been reported and merged.
    pub fn is_finished(&self) -> (r: bool)
        ensures
            r == self.finished(),
    {
        self.in_flight == 0
    }

    /// How many files could not be read in full.
    pub fn failed_file_count(&self) -> (r: usize)
        ensures
            r == self.failed_files,
    {
        self.failed_files
    }

    /// The number of workers of the run.
    pub fn worker_count(&self) -> (r: usize)
        ensures
            r == self.num_workers(),
    {
        self.assigned.len()
    }
    /// The global aggregate. Once the run is finished, this is its result.
    pub fn result(&self) -> (r: &FileAggregation)
        ensures
            r == &self.global,
    {
        &self.global
    }

    /// Ends the controller, handing over the global aggregate.
    pub fn into_result(self) -> (r: FileAggregation)
        ensures
            r == self.global,
    {
        self.global
    }

    /// Once a run is finished, every file of the list has been handed out, and
    /// each has had exactly one report merged.
    pub proof fn lemma_every_file_merged_once(&self)
        requires
            self.wf(),
            self.finished(),
        ensures
            self.next_file == self.num_files,
            self.merged@.len() == self.num_files,
            self.merged@.no_duplicates(),
            forall|f: int| 0 <= f < self.num_files ==> #[trigger] self.merged@.contains(f),
    {
        lemma_none_busy(self.assigned@);
        assert(self.assigned@[0] is None);
        assert forall|f: int| 0 <= f < self.num_files implies #[trigger] self.merged@.contains(f) by {
            if !self.merged@.contains(f) {
                let w = choose|w: int| 0 <= w < self.assigned@.len() && #[trigger] self.assigned@[w] == Some(f as usize);
                assert(self.assigned@[w] is None);
            }
        }
    }

    /// Once a run is finished, its global aggregate is the sum of the reports on
    /// the files, in list order, whatever order the reports came in.
    pub proof fn lemma_result_is_sum_of_files(&self, parts: Seq<Multiset<KeyView>>)
        requires
            self.wf(),
            self.finished(),
            parts.len() == self.num_files,
            forall|f: int| 0 <= f < parts.len() ==> #[trigger] self.reports@[f] == parts[f],
        ensures
            self.global@ == sum_all(parts),
    {
        self.lemma_every_file_merged_once();
        let n = parts.len();
        let range = Seq::new(n, |i: int| i);
        let m = self.merged@;
        assert(range.no_duplicates());
        assert forall|y: int| m.to_set().contains(y) <==> range.to_set().contains(y) by {
            if m.to_set().contains(y) {
                let i = m.index_of(y);
                assert(range[y] == y);
            }
            if range.to_set().contains(y) {
                let i = range.index_of(y);
                assert(m.contains(y));
            }
        }
        assert(m.to_set() =~= range.to_set());
        lemma_sum_permutation(m, range, self.reports@);
        lemma_sum_in_list_order(parts, self.reports@);
    }
}

/// Two finished runs over the same files, with any numbers of workers and any
/// order of reports, have the same result, when each file was reported the same.
pub proof fn lemma_result_independent_of_schedule(a: &AggregationController, b: &AggregationController)
    requires
        a.wf(),
        a.finished(),
        b.wf(),
        b.finished(),
        a.num_files == b.num_files,
        forall|f: int| 0 <= f < a.num_files ==> #[trigger] a.reports@[f] == b.reports@[f],
    ensures
        a.global@ == b.global@,
        a.global.num_raw_records == b.global.num_raw_records,
{
    let parts = Seq::new(a.num_files as nat, |f: int| a.reports@[f]);
    a.lemma_result_is_sum_of_files(parts);
    b.lemma_result_is_sum_of_files(parts);
}

/// Two finished runs over the same files listed in different orders have the
/// same result: the per-file aggregates of one list are those of the other,
/// rearranged.
pub proof fn lemma_result_independent_of_file_order(
    a: &AggregationController,
    b: &AggregationController,
    pa: Seq<Multiset<KeyView>>,
    pb: Seq<Multiset<KeyView>>,
)
    requires
        a.wf(),
        a.finished(),
        b.wf(),
        b.finished(),
        pa.len() == a.num_files,
        pb.len() == b.num_files,
        forall|f: int| 0 <= f < pa.len() ==> #[trigger] a.reports@[f] == pa[f],
        forall|f: int| 0 <= f < pb.len() ==> #[trigger] b.reports@[f] == pb[f],
        pa.to_multiset() == pb.to_multiset(),
    ensures
        a.global@ == b.global@,
        a.global.num_raw_records == b.global.num_raw_records,
{
    a.lemma_result_is_sum_of_files(pa);
    b.lemma_result_is_sum_of_files(pb);
    lemma_sum_all_permutation(pa, pb);
}

/// An empty file changes nothing: a finished run over a list with an empty file
/// at position `i` has the result of a finished run over the list without it.
pub proof fn lemma_empty_file_adds_nothing(
    a: &AggregationController,
    b: &AggregationController,
    parts: Seq<Multiset<KeyView>>,
    i: int,
)
    requires
        a.wf(),
        a.finished(),
        b.wf(),
        b.finished(),
        0 <= i < parts.len(),
        parts[i] == Multiset::<KeyView>::empty(),
        parts.len() == a.num_files,
        b.num_files == parts.len() - 1,
        forall|f: int| 0 <= f < parts.len() ==> #[trigger] a.reports@[f] == parts[f],
        forall|f: int| 0 <= f < parts.len() - 1 ==> #[trigger] b.reports@[f] == parts.remove(i)[f],
    ensures
        a.global@ == b.global@,
        a.global.num_raw_records == b.global.num_raw_records,
{
    a.lemma_result_is_sum_of_files(parts);
    b.lemma_result_is_sum_of_files(parts.remove(i));
    lemma_sum_all_remove(parts, i);
    assert(sum_all(parts) =~= sum_all(parts.remove(i)));
}

/// The record count of a finished run is the number of lines, over all files,
/// that parse, where each file's report came from its lines.
pub proof fn lemma_total_is_parsed_lines(c: &AggregationController, files: Seq<Seq<String>>)
    requires
        c.wf(),
        c.finished(),
        files.len() == c.num_files,
        forall|f: int| 0 <= f < files.len() ==> #[trigger] c.reports@[f] == records_of(files[f]),
    ensures
        c.global.num_raw_records == total_parsed_lines(files),
{
    let parts = Seq::new(files.len(), |f: int| records_of(files[f]));
    c.lemma_result_is_sum_of_files(parts);
    lemma_sum_all_len(parts, files);
}

} // verus!
