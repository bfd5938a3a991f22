use log_counter::aggregation::FileAggregation;
use log_counter::controller::{AggregationController, ControlError, Dispatch};
use log_counter::key::{parse_log_line, AggregateKey, Day};
use log_counter::worker::{
    aggregate_lines, aggregate_parsed, AggregationMessage, FileAggregator, FileHandlingMessage,
};

fn elb_line(timestamp: &str, system: &str, client: &str) -> String {
    format!(
        "{} {} {}:54814 172.16.1.5:9000 0.000039 0.145507 0.00003 200 200 0 7582 \
         \"GET http://some.domain.com:80/path0/path1?param0=p0 HTTP/1.1\"",
        timestamp, system, client
    )
}

fn key(system: &str, year: i32, month: u32, day: u32, client: &str) -> AggregateKey {
    AggregateKey::new(system.to_string(), Day { year, month, day }, client.to_string())
}

fn web1_file() -> Vec<String> {
    vec![
        elb_line("2024-01-01T08:00:00.000000Z", "web1", "10.0.0.1"),
        elb_line("2024-01-01T12:30:00.000000Z", "web1", "10.0.0.2"),
        elb_line("2024-01-01T23:59:59.999999Z", "web1", "10.0.0.1"),
    ]
}

/// Runs the controller and the workers in one thread. Reports come back in the
/// order the files were handed out, or in the reverse order when `newest_first`.
fn simulate(
    num_workers: usize,
    files: &Vec<Vec<String>>,
    newest_first: bool,
) -> (AggregationController, Vec<usize>, Vec<FileAggregator>) {
    let (mut controller, first) = AggregationController::new(num_workers, files.len());
    let mut workers: Vec<FileAggregator> = (0..num_workers).map(FileAggregator::new).collect();
    let mut pending: Vec<Dispatch> = first;
    let mut dispatched: Vec<usize> = Vec::new();
    while !pending.is_empty() {
        let d = if newest_first { pending.pop().unwrap() } else { pending.remove(0) };
        dispatched.push(d.file);
        let job = workers[d.worker].receive(FileHandlingMessage::ProcessFile(d.file));
        assert_eq!(job, Some(d.file));
        let report = workers[d.worker].report(&files[d.file], false).unwrap();
        match controller.on_report(report).unwrap() {
            Some(next) => pending.push(next),
            None => {}
        }
    }
    assert!(controller.is_finished());
    for w in workers.iter_mut() {
        assert_eq!(w.receive(FileHandlingMessage::Shutdown), None);
        assert!(w.shut_down);
    }
    (controller, dispatched, workers)
}

fn same_aggregate(a: &FileAggregation, b: &FileAggregation) -> bool {
    a.num_raw_records == b.num_raw_records
        && a.num_aggregates() == b.num_aggregates()
        && a.aggregation.iter().all(|(k, c)| b.count(k) == *c)
}

#[test]
fn three_lines_of_one_system_group_by_client() {
    let agg = aggregate_lines(&web1_file());
    assert_eq!(agg.num_raw_records, 3);
    assert_eq!(agg.num_aggregates(), 2);
    assert_eq!(agg.count(&key("web1", 2024, 1, 1, "10.0.0.1")), 2);
    assert_eq!(agg.count(&key("web1", 2024, 1, 1, "10.0.0.2")), 1);
    assert_eq!(agg.count(&key("web1", 2024, 1, 2, "10.0.0.1")), 0);
}

#[test]
fn single_file_run_gives_the_file_aggregate() {
    let files = vec![web1_file()];
    let (controller, _, _) = simulate(2, &files, false);
    let result = controller.result();
    assert_eq!(result.num_raw_records, 3);
    assert_eq!(result.num_aggregates(), 2);
    assert_eq!(result.count(&key("web1", 2024, 1, 1, "10.0.0.1")), 2);
    assert_eq!(result.count(&key("web1", 2024, 1, 1, "10.0.0.2")), 1);
}

#[test]
fn empty_file_counts_nothing_and_other_files_still_count() {
    let empty: Vec<String> = Vec::new();
    let agg = aggregate_lines(&empty);
    assert_eq!(agg.num_raw_records, 0);
    assert_eq!(agg.num_aggregates(), 0);

    let files = vec![Vec::new(), web1_file(), Vec::new()];
    let (controller, _, _) = simulate(2, &files, false);
    assert_eq!(controller.result().num_raw_records, 3);
    assert_eq!(controller.result().num_aggregates(), 2);
}

#[test]
fn unparsable_line_is_skipped() {
    let lines = vec![
        "this is not an access log record".to_string(),
        elb_line("2015-08-15T23:43:05.302180Z", "elb-name", "172.16.1.6"),
    ];
    let agg = aggregate_lines(&lines);
    assert_eq!(agg.num_raw_records, 1);
    assert_eq!(agg.num_aggregates(), 1);
    assert_eq!(agg.count(&key("elb-name", 2015, 8, 15, "172.16.1.6")), 1);
}

#[test]
fn parse_log_line_reads_system_day_and_client_address() {
    let k = parse_log_line(&elb_line("2016-02-29T00:00:01.000000Z", "lb-7", "192.168.3.4")).unwrap();
    assert_eq!(k.system_name, "lb-7");
    assert_eq!(k.day, Day { year: 2016, month: 2, day: 29 });
    assert_eq!(k.client_address, "192.168.3.4");
    assert_eq!(k, key("lb-7", 2016, 2, 29, "192.168.3.4"));
}

#[test]
fn parse_log_line_rejects_malformed_lines() {
    assert!(parse_log_line("").is_none());
    assert!(parse_log_line("2015-08-15T23:43:05.302180Z elb-name").is_none());
    assert!(parse_log_line(" \u{e9}t\u{e9} 2015").is_none());
    let bad_time = elb_line("not-a-timestamp", "web1", "10.0.0.1");
    assert!(parse_log_line(&bad_time).is_none());
}

#[test]
fn lines_not_starting_with_a_digit_count_as_unparsable() {
    let far_year = elb_line("+262143-12-31T23:59:59-01:00", "web1", "10.0.0.1");
    assert!(parse_log_line(&far_year).is_none());
    let indented = format!(" {}", elb_line("2024-01-01T08:00:00.000000Z", "web1", "10.0.0.1"));
    assert!(parse_log_line(&indented).is_none());
    let agg = aggregate_lines(&vec![far_year, indented]);
    assert_eq!(agg.num_raw_records, 0);
}

#[test]
fn earliest_and_latest_four_digit_years_parse() {
    let early = parse_log_line(&elb_line("0000-01-01T00:30:00.000000+01:00", "w", "10.0.0.1")).unwrap();
    assert_eq!(early.day, Day { year: -1, month: 12, day: 31 });
    let late = parse_log_line(&elb_line("9999-12-31T23:30:00.000000-01:00", "w", "10.0.0.1")).unwrap();
    assert_eq!(late.day, Day { year: 10000, month: 1, day: 1 });
}

#[test]
fn same_key_records_share_one_entry() {
    let mut agg = FileAggregation::new();
    agg.add_record(key("web1", 2024, 1, 1, "10.0.0.1"));
    agg.add_record(key("web1", 2024, 1, 1, "10.0.0.1"));
    agg.add_record(key("web1", 2024, 1, 2, "10.0.0.1"));
    assert_eq!(agg.num_raw_records, 3);
    assert_eq!(agg.num_aggregates(), 2);
    assert_eq!(agg.count(&key("web1", 2024, 1, 1, "10.0.0.1")), 2);
    assert_eq!(agg.count(&key("web1", 2024, 1, 2, "10.0.0.1")), 1);
}

#[test]
fn aggregate_parsed_skips_failures() {
    let keys = vec![None, Some(key("a", 2020, 5, 6, "1.2.3.4")), None, Some(key("a", 2020, 5, 6, "1.2.3.4"))];
    let agg = aggregate_parsed(&keys);
    assert_eq!(agg.num_raw_records, 2);
    assert_eq!(agg.num_aggregates(), 1);
    assert_eq!(agg.count(&key("a", 2020, 5, 6, "1.2.3.4")), 2);
}

#[test]
fn merge_adds_counts_and_totals_in_any_order() {
    let mut a = FileAggregation::new();
    a.add_record(key("s", 2021, 3, 4, "1.1.1.1"));
    a.add_count(key("s", 2021, 3, 4, "2.2.2.2"), 5);
    let mut b = FileAggregation::new();
    b.add_count(key("s", 2021, 3, 4, "1.1.1.1"), 2);
    b.add_record(key("t", 2021, 3, 4, "1.1.1.1"));
    let mut c = FileAggregation::new();
    c.add_record(key("s", 2021, 3, 5, "1.1.1.1"));

    let mut ab = FileAggregation::new();
    ab.merge(&a);
    ab.merge(&b);
    ab.merge(&c);
    let mut cba = FileAggregation::new();
    cba.merge(&c);
    cba.merge(&b);
    cba.merge(&a);

    assert_eq!(ab.num_raw_records, 10);
    assert_eq!(ab.num_aggregates(), 4);
    assert_eq!(ab.count(&key("s", 2021, 3, 4, "1.1.1.1")), 3);
    assert_eq!(ab.count(&key("s", 2021, 3, 4, "2.2.2.2")), 5);
    assert!(same_aggregate(&ab, &cba));
}

#[test]
fn result_is_the_same_for_every_worker_count_and_order() {
    let files = vec![
        web1_file(),
        vec![
            elb_line("2024-01-02T08:00:00.000000Z", "web1", "10.0.0.1"),
            "garbage".to_string(),
            elb_line("2024-01-01T08:00:00.000000Z", "web2", "10.0.0.9"),
        ],
        Vec::new(),
        vec![elb_line("2024-01-01T09:00:00.000000Z", "web1", "10.0.0.2")],
        web1_file(),
    ];
    let (reference, _, _) = simulate(1, &files, false);
    assert_eq!(reference.result().num_raw_records, 9);
    assert_eq!(reference.result().count(&key("web1", 2024, 1, 1, "10.0.0.1")), 4);
    assert_eq!(reference.result().count(&key("web1", 2024, 1, 1, "10.0.0.2")), 3);
    for workers in 1..=6 {
        for newest_first in [false, true] {
            let (c, _, _) = simulate(workers, &files, newest_first);
            assert!(same_aggregate(reference.result(), c.result()));
        }
    }
}

#[test]
fn every_file_is_dispatched_exactly_once() {
    let files: Vec<Vec<String>> = (0..7).map(|_| web1_file()).collect();
    for workers in 1..=4 {
        let (c, mut dispatched, _) = simulate(workers, &files, workers % 2 == 0);
        dispatched.sort();
        assert_eq!(dispatched, (0..7).collect::<Vec<usize>>());
        assert_eq!(c.result().num_raw_records, 21);
    }
}

#[test]
fn more_workers_than_files_still_processes_every_file() {
    let files = vec![web1_file(), web1_file()];
    let (controller, first) = AggregationController::new(5, files.len());
    assert_eq!(first, vec![Dispatch { worker: 0, file: 0 }, Dispatch { worker: 1, file: 1 }]);
    assert_eq!(controller.worker_count(), 5);
    assert!(!controller.is_finished());
    let (c, dispatched, workers) = simulate(5, &files, false);
    assert_eq!(dispatched.len(), 2);
    assert_eq!(c.result().num_raw_records, 6);
    assert!(workers.iter().all(|w| w.shut_down));
}

#[test]
fn no_files_is_finished_at_once() {
    let (controller, first) = AggregationController::new(3, 0);
    assert!(first.is_empty());
    assert!(controller.is_finished());
    assert_eq!(controller.result().num_raw_records, 0);
}

#[test]
fn a_reporting_worker_gets_the_next_file() {
    let files = vec![web1_file(), web1_file(), web1_file()];
    let (mut controller, first) = AggregationController::new(2, files.len());
    assert_eq!(first.len(), 2);
    let worker = FileAggregator::new(1);
    let next = controller.on_report(worker.report(&files[1], false).unwrap()).unwrap();
    assert_eq!(next, Some(Dispatch { worker: 1, file: 2 }));
    let next = controller.on_report(worker.report(&files[2], false).unwrap()).unwrap();
    assert_eq!(next, None);
    assert!(!controller.is_finished());
    let next = controller.on_report(FileAggregator::new(0).report(&files[0], false).unwrap()).unwrap();
    assert_eq!(next, None);
    assert!(controller.is_finished());
    assert_eq!(controller.result().num_raw_records, 9);
}

#[test]
fn reports_that_break_the_protocol_are_refused() {
    let (mut controller, _) = AggregationController::new(2, 1);
    let unknown = AggregationMessage { sender_id: 2, file_aggregation: FileAggregation::new(), read_failed: false };
    assert_eq!(controller.on_report(unknown).unwrap_err(), ControlError::UnknownWorker);
    let idle = AggregationMessage { sender_id: 1, file_aggregation: FileAggregation::new(), read_failed: false };
    assert_eq!(controller.on_report(idle).unwrap_err(), ControlError::UnexpectedReport);
    assert!(!controller.is_finished());
    let ok = AggregationMessage { sender_id: 0, file_aggregation: FileAggregation::new(), read_failed: false };
    assert_eq!(controller.on_report(ok), Ok(None));
    assert!(controller.is_finished());
}

#[test]
fn report_past_the_largest_count_is_refused() {
    let (mut controller, _) = AggregationController::new(2, 2);
    let mut small = FileAggregation::new();
    small.add_record(key("a", 2020, 1, 1, "1.1.1.1"));
    let first = AggregationMessage { sender_id: 0, file_aggregation: small, read_failed: false };
    assert_eq!(controller.on_report(first), Ok(None));
    let mut huge = FileAggregation::new();
    huge.add_count(key("a", 2020, 1, 1, "1.1.1.1"), u64::MAX);
    let second = AggregationMessage { sender_id: 1, file_aggregation: huge, read_failed: false };
    assert_eq!(controller.on_report(second).unwrap_err(), ControlError::CountOverflow);
    assert!(!controller.is_finished());
    assert_eq!(controller.result().num_raw_records, 1);
}

#[test]
fn shut_down_worker_takes_no_more_work() {
    let mut worker = FileAggregator::new(3);
    assert_eq!(worker.receive(FileHandlingMessage::ProcessFile(4)), Some(4));
    assert!(worker.report(&web1_file(), false).is_some());
    assert_eq!(worker.receive(FileHandlingMessage::Shutdown), None);
    assert_eq!(worker.receive(FileHandlingMessage::ProcessFile(5)), None);
    assert!(worker.report(&web1_file(), false).is_none());
    assert!(worker.shut_down);
    assert_eq!(worker.id, 3);
}

#[test]
fn report_carries_the_worker_id_and_file_aggregate() {
    let worker = FileAggregator::new(7);
    let msg = worker.report(&web1_file(), false).unwrap();
    assert_eq!(msg.sender_id, 7);
    assert_eq!(msg.file_aggregation.num_raw_records, 3);
    assert_eq!(msg.file_aggregation.count(&key("web1", 2024, 1, 1, "10.0.0.2")), 1);
}

#[test]
fn unreadable_file_is_marked_and_counted_without_stopping_the_run() {
    let files = vec![web1_file(), web1_file()];
    let (mut controller, _) = AggregationController::new(2, files.len());
    let partly_read = vec![files[0][0].clone()];
    let failed = FileAggregator::new(0).report(&partly_read, true).unwrap();
    assert!(failed.read_failed);
    assert_eq!(failed.file_aggregation.num_raw_records, 1);
    assert_eq!(controller.on_report(failed), Ok(None));
    assert_eq!(controller.failed_file_count(), 1);
    let ok = FileAggregator::new(1).report(&files[1], false).unwrap();
    assert_eq!(controller.on_report(ok), Ok(None));
    assert!(controller.is_finished());
    assert_eq!(controller.failed_file_count(), 1);
    assert_eq!(controller.into_result().num_raw_records, 4);
}

#[test]
fn well_formedness_check_rejects_broken_aggregates() {
    let mut agg = FileAggregation::new();
    agg.add_count(key("a", 2020, 1, 1, "1.1.1.1"), 3);
    assert!(agg.is_well_formed());
    let mut wrong_total = FileAggregation::new();
    wrong_total.add_record(key("a", 2020, 1, 1, "1.1.1.1"));
    wrong_total.num_raw_records = 2;
    assert!(!wrong_total.is_well_formed());
    let mut duplicate = FileAggregation::new();
    duplicate.add_record(key("a", 2020, 1, 1, "1.1.1.1"));
    duplicate.aggregation.push((key("a", 2020, 1, 1, "1.1.1.1"), 1));
    duplicate.num_raw_records = 2;
    assert!(!duplicate.is_well_formed());
    let mut zero = FileAggregation::new();
    zero.aggregation.push((key("a", 2020, 1, 1, "1.1.1.1"), 0));
    assert!(!zero.is_well_formed());
}

#[test]
fn reordering_the_file_list_keeps_the_result() {
    let mixed = vec![
        elb_line("2024-01-03T08:00:00.000000Z", "web2", "10.0.0.3"),
        "not a record".to_string(),
    ];
    let files = vec![web1_file(), mixed.clone(), Vec::new()];
    let reordered = vec![Vec::new(), mixed, web1_file()];
    let (a, _, _) = simulate(2, &files, false);
    let (b, _, _) = simulate(3, &reordered, true);
    assert_eq!(a.result().num_raw_records, 4);
    assert!(same_aggregate(a.result(), b.result()));
}

#[test]
fn dropping_an_empty_file_keeps_the_result() {
    let with_empty = vec![web1_file(), Vec::new(), web1_file()];
    let without = vec![web1_file(), web1_file()];
    let (a, _, _) = simulate(2, &with_empty, false);
    let (b, _, _) = simulate(2, &without, false);
    assert_eq!(a.result().num_raw_records, 6);
    assert!(same_aggregate(a.result(), b.result()));
}
