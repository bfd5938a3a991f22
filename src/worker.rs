//! The worker side: turning the lines of one file into a partial aggregate, the
//! messages exchanged with the controller, and a worker's life cycle.

use crate::aggregation::FileAggregation;
use crate::key::{key_view_of, line_key, parse_log_line, AggregateKey, KeyView};
use vstd::multiset::Multiset;
use vstd::prelude::*;

verus! {

broadcast use vstd::multiset::group_multiset_axioms;

/// The records that a sequence of parse results stands for: one per key found.
pub open spec fn parsed_view(ks: Seq<Option<AggregateKey>>) -> Multiset<KeyView>
    decreases ks.len(),
{
    if ks.len() == 0 {
        Multiset::empty()
    } else {
        match key_view_of(ks.last()) {
            Some(k) => parsed_view(ks.drop_last()).insert(k),
            None => parsed_view(ks.drop_last()),
        }
    }
}

/// The records of a file: one for each line that parses, under that line's key.
pub open spec fn records_of(lines: Seq<String>) -> Multiset<KeyView>
    decreases lines.len(),
{
    if lines.len() == 0 {
        Multiset::empty()
    } else {
        match line_key(lines.last()@) {
            Some(k) => records_of(lines.drop_last()).insert(k),
            None => records_of(lines.drop_last()),
        }
    }
}

/// How many lines of a file parse.
pub open spec fn parsed_lines(lines: Seq<String>) -> nat
    decreases lines.len(),
{
    if lines.len() == 0 {
        0
    } else {
        parsed_lines(lines.drop_last()) + if line_key(lines.last()@) is Some {
            1nat
        } else {
            0nat
        }
    }
}

/// The record count of a file is the number of its lines that parse.
pub proof fn lemma_records_are_parsed_lines(lines: Seq<String>)
    ensures
        records_of(lines).len() == parsed_lines(lines),
    decreases lines.len(),
{
    if lines.len() > 0 {
        lemma_records_are_parsed_lines(lines.drop_last());
    }
}

proof fn lemma_parsed_lines(ks: Seq<Option<AggregateKey>>, lines: Seq<String>)
    requires
        ks.len() == lines.len(),
        forall|j: int| 0 <= j < ks.len() ==> key_view_of(#[trigger] ks[j]) == line_key(lines[j]@),
    ensures
        parsed_view(ks) == records_of(lines),
    decreases ks.len(),
{
    if ks.len() > 0 {
        lemma_parsed_lines(ks.drop_last(), lines.drop_last());
    }
}

/// Counts the keys of parsed lines; a line that did not parse (`None`) is skipped.
pub fn aggregate_parsed(keys: &Vec<Option<AggregateKey>>) -> (r: FileAggregation)
    ensures
        r.wf(),
        r@ == parsed_view(keys@),
        r.num_raw_records == parsed_view(keys@).len(),
{
    let mut agg = FileAggregation::new();
    let mut j: usize = 0;
    while j < keys.len()
        invariant
            j <= keys@.len(),
            agg.wf(),
            agg@ == parsed_view(keys@.take(j as int)),
            agg.num_raw_records <= j,
        decreases keys@.len() - j,
    {
        proof {
            assert(keys@.take(j + 1).drop_last() =~= keys@.take(j as int));
        }
        match &keys[j] {
            Some(k) => {
                agg.add_record(k.clone());
            },
            None => {},
        }
        j = j + 1;
    }
    proof {
        assert(keys@.take(j as int) =~= keys@);
    }
    agg
}

/// Parses every line of a file and counts the records by key. Lines that do
/// not parse are skipped and do not count.
pub fn aggregate_lines(lines: &Vec<String>) -> (r: FileAggregation)
    ensures
        r.wf(),
        r@ == records_of(lines@),
        r.num_raw_records == parsed_lines(lines@),
{
    let mut keys: Vec<Option<AggregateKey>> = Vec::new();
    let mut j: usize = 0;
    while j < lines.len()
        invariant
            j <= lines@.len(),
            keys@.len() == j,
            forall|i: int| 0 <= i < j ==> key_view_of(#[trigger] keys@[i]) == line_key(lines@[i]@),
        decreases lines@.len() - j,
    {
        let k = parse_log_line(lines[j].as_str());
        keys.push(k);
        j = j + 1;
    }
    proof {
        lemma_parsed_lines(keys@, lines@);
        lemma_records_are_parsed_lines(lines@);
    }
    aggregate_parsed(&keys)
}

/// A message to a worker: a file to process, by its position in the run's
/// file list, or the signal to stop.
#[derive(Clone, Copy, Debug, PartialEq, Eq, Structural)]
pub enum FileHandlingMessage {
    ProcessFile(usize),
    Shutdown,
}

/// A message to the controller: the aggregate of the file that a worker has
/// just finished, and whether reading the file failed (its aggregate then holds
/// the lines read before the failure).
#[derive(Debug)]
pub struct AggregationMessage {
    pub sender_id: usize,
    pub file_aggregation: FileAggregation,
    pub read_failed: bool,
}

/// What a worker does on a message: whether it has stopped afterwards, and the
/// file it is to process, if any. A stopped worker stays stopped and takes no work.
pub open spec fn worker_step(shut_down: bool, msg: FileHandlingMessage) -> (bool, Option<usize>) {
    if shut_down {
        (true, None)
    } else {
        match msg {
            FileHandlingMessage::ProcessFile(f) => (false, Some(f)),
            FileHandlingMessage::Shutdown => (true, None),
        }
    }
}

/// The files that a worker takes on over a sequence of messages.
pub open spec fn jobs_taken(shut_down: bool, msgs: Seq<FileHandlingMessage>) -> Seq<usize>
    decreases msgs.len(),
{
    if msgs.len() == 0 {
        Seq::empty()
    } else {
        let (next, job) = worker_step(shut_down, msgs[0]);
        match job {
            Some(f) => seq![f] + jobs_taken(next, msgs.drop_first()),
            None => jobs_taken(next, msgs.drop_first()),
        }
    }
}

/// Once a worker has received `Shutdown`, no later message gives it work, so it
/// sends the controller nothing more.
pub proof fn lemma_shutdown_is_final(msgs: Seq<FileHandlingMessage>)
    ensures
        jobs_taken(true, msgs) == Seq::<usize>::empty(),
        jobs_taken(false, seq![FileHandlingMessage::Shutdown] + msgs) == Seq::<usize>::empty(),
    decreases msgs.len(),
{
    if msgs.len() > 0 {
        lemma_shutdown_is_final(msgs.drop_first());
    }
    assert((seq![FileHandlingMessage::Shutdown] + msgs).drop_first() =~= msgs);
}

/// A worker: its identifier, and whether it has been told to stop.
#[derive(Debug)]
pub struct FileAggregator {
    pub id: usize,
    pub shut_down: bool,
}

impl FileAggregator {
    pub fn new(id: usize) -> (r: FileAggregator)
        ensures
            r.id == id,
            !r.shut_down,
    {
        FileAggregator { id, shut_down: false }
    }

    /// Takes one message; returns the file to process, if the message gives one
    /// and the worker has not stopped.
    pub fn receive(&mut self, msg: FileHandlingMessage) -> (r: Option<usize>)
        ensures
            final(self).id == old(self).id,
            (final(self).shut_down, r) == worker_step(old(self).shut_down, msg),
    {
        if self.shut_down {
            return None;
        }
        match msg {
            FileHandlingMessage::ProcessFile(f) => Some(f),
            FileHandlingMessage::Shutdown => {
                self.shut_down = true;
                None
            },
        }
    }

    /// The report on a processed file, from the lines that could be read and
    /// whether reading failed; a stopped worker reports nothing.
    pub fn report(&self, lines: &Vec<String>, read_failed: bool) -> (r: Option<AggregationMessage>)
        ensures
            self.shut_down ==> r is None,
            !self.shut_down ==> (r matches Some(m) && m.sender_id == self.id && m.read_failed == read_failed
                && m.file_aggregation.wf() && m.file_aggregation@ == records_of(lines@)
                && m.file_aggregation.num_raw_records == parsed_lines(lines@)),
    {
        if self.shut_down {
            None
        } else {
            Some(
                AggregationMessage {
                    sender_id: self.id,
                    file_aggregation: aggregate_lines(lines),
                    read_failed,
                },
            )
        }
    }
}

} // verus!
