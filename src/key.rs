//! The grouping key of the aggregation, and the parsing of one log line into it.

use chrono::Datelike;
use vstd::prelude::*;
use vstd::string::StrSliceExecFns;

verus! {

/// A calendar day, as the UTC date of a record's timestamp.
#[derive(Clone, Copy, Debug, PartialEq, Eq, Structural)]
pub struct Day {
    pub year: i32,
    pub month: u32,
    pub day: u32,
}

/// The mathematical value of a key: system identifier, day and client address.
pub type KeyView = (Seq<char>, Day, Seq<char>);

/// What records are grouped by: the system (load balancer) that logged the record,
/// the day of its timestamp, and the client's IP address.
#[derive(Debug)]
pub struct AggregateKey {
    pub system_name: String,
    pub day: Day,
    pub client_address: String,
}

impl View for AggregateKey {
    type V = KeyView;

    open spec fn view(&self) -> KeyView {
        (self.system_name@, self.day, self.client_address@)
    }
}

impl AggregateKey {
    pub fn new(system_name: String, day: Day, client_address: String) -> (r: AggregateKey)
        ensures
            r.system_name@ == system_name@,
            r.day == day,
            r.client_address@ == client_address@,
    {
        AggregateKey { system_name, day, client_address }
    }

    /// Structural equality of two keys: all three fields agree.
    pub fn same_key(&self, other: &AggregateKey) -> (r: bool)
        ensures
            r == (self@ == other@),
    {
        self.day == other.day && self.system_name == other.system_name
            && self.client_address == other.client_address
    }
}

impl Clone for AggregateKey {
    fn clone(&self) -> (r: AggregateKey)
        ensures
            r@ == self@,
    {
        AggregateKey {
            system_name: self.system_name.clone(),
            day: self.day,
            client_address: self.client_address.clone(),
        }
    }
}

impl PartialEq for AggregateKey {
    fn eq(&self, other: &AggregateKey) -> (r: bool) {
        self.same_key(other)
    }
}

impl vstd::std_specs::cmp::PartialEqSpecImpl for AggregateKey {
    open spec fn obeys_eq_spec() -> bool {
        true
    }

    open spec fn eq_spec(&self, other: &AggregateKey) -> bool {
        self@ == other@
    }
}

/// The key of a log line, or `None` where the line is not an access-log record.
pub uninterp spec fn parsed_key(line: Seq<char>) -> Option<KeyView>;

pub open spec fn key_view_of(k: Option<AggregateKey>) -> Option<KeyView> {
    match k {
        Some(k) => Some(k@),
        None => None,
    }
}

/// Lines on which the record parser is known not to panic: those that start
/// with an ASCII digit, as every access-log record does with its timestamp.
/// Nothing is trimmed from such a line, so the parser's field splitter, which
/// slices the untrimmed line at offsets taken in the trimmed one, stays on
/// character boundaries; and the timestamp's year is then at most four unsigned
/// digits, so converting it to UTC stays within the representable dates.
pub open spec fn parser_accepts(line: Seq<char>) -> bool {
    line.len() > 0 && '0' <= line[0] && line[0] <= '9'
}

/// Relies on elp::parse_record: a line either fails to parse or yields a record
/// whose load balancer name, UTC timestamp and client socket address are read here;
/// the outcome depends on the line alone.
#[verifier::external_body]
fn parse_line(line: &str) -> (r: Option<AggregateKey>)
    requires
        parser_accepts(line@),
    ensures
        key_view_of(r) == parsed_key(line@),
{
    match elp::parse_record(line) {
        Ok(rec) => Some(AggregateKey {
            system_name: rec.elb_name.to_string(),
            day: Day { year: rec.timestamp.year(), month: rec.timestamp.month(), day: rec.timestamp.day() },
            client_address: rec.client_address.ip().to_string(),
        }),
        Err(_) => None,
    }
}

/// The key of a line: what the record parser yields, on the lines that start
/// with a digit. Any other line counts as unparsable, even one the parser would
/// read (a timestamp with a signed year, or leading whitespace).
pub open spec fn line_key(line: Seq<char>) -> Option<KeyView> {
    if parser_accepts(line) {
        parsed_key(line)
    } else {
        None
    }
}

/// Parses one log line into the key it is counted under, or `None` where the
/// line is not a record.
pub fn parse_log_line(line: &str) -> (r: Option<AggregateKey>)
    ensures
        key_view_of(r) == line_key(line@),
{
    let accepted = !line.is_empty() && {
        let c = line.get_char(0);
        '0' <= c && c <= '9'
    };
    if accepted {
        parse_line(line)
    } else {
        None
    }
}

} // verus!
