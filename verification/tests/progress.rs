use plate_ingest::progress::{ProgressEvent, ProgressReader};

fn percents(total: u64, reads: &[usize]) -> Vec<u128> {
    let mut reader = ProgressReader::new((), total);
    let mut seen = Vec::new();
    for n in reads {
        if let Some(event) = reader.advance(*n) {
            seen.push(event.percent);
        }
    }
    seen
}

#[test]
fn new_reader_has_read_nothing() {
    let reader = ProgressReader::new(7u8, 1000);
    assert_eq!(reader.reader, 7u8);
    assert_eq!(reader.total, 1000);
    assert_eq!(reader.current, 0);
    assert_eq!(reader.last_print, 0);
}

#[test]
fn quarter_reads_report_each_quarter() {
    assert_eq!(percents(1000, &[250, 250, 250, 250]), vec![25, 50, 75, 100]);
}

#[test]
fn quarter_reads_carry_counter_and_total() {
    let mut reader = ProgressReader::new((), 1000);
    let first = reader.advance(250);
    assert_eq!(first, Some(ProgressEvent { percent: 25, current: 250, total: 1000 }));
    let second = reader.advance(250);
    assert_eq!(second, Some(ProgressEvent { percent: 50, current: 500, total: 1000 }));
    assert_eq!(reader.current, 500);
    assert_eq!(reader.last_print, 50);
}

#[test]
fn zero_total_reports_nothing() {
    assert_eq!(percents(0, &[250, 250, 250, 250]), Vec::<u128>::new());
    let mut reader = ProgressReader::new((), 0);
    assert_eq!(reader.advance(10), None);
    assert_eq!(reader.current, 10);
    assert_eq!(reader.last_print, 0);
}

#[test]
fn small_reads_report_each_percent_once() {
    let reads = vec![1usize; 1000];
    let seen = percents(1000, &reads);
    let expected: Vec<u128> = (1..=100).collect();
    assert_eq!(seen, expected);
}

#[test]
fn reads_below_one_percent_report_nothing() {
    let mut reader = ProgressReader::new((), 1000);
    assert_eq!(reader.advance(9), None);
    assert_eq!(reader.current, 9);
    assert_eq!(reader.advance(0), None);
    assert_eq!(reader.advance(1), Some(ProgressEvent { percent: 1, current: 10, total: 1000 }));
}

#[test]
fn percent_is_rounded_down() {
    let mut reader = ProgressReader::new((), 3);
    assert_eq!(reader.advance(1), Some(ProgressEvent { percent: 33, current: 1, total: 3 }));
    assert_eq!(reader.advance(1), Some(ProgressEvent { percent: 66, current: 2, total: 3 }));
    assert_eq!(reader.advance(1), Some(ProgressEvent { percent: 100, current: 3, total: 3 }));
}

#[test]
fn empty_read_after_a_report_is_silent() {
    let mut reader = ProgressReader::new((), 100);
    assert!(reader.advance(40).is_some());
    assert_eq!(reader.advance(0), None);
    assert_eq!(reader.last_print, 40);
}

#[test]
fn more_than_declared_goes_past_a_hundred() {
    let mut reader = ProgressReader::new((), 10);
    assert_eq!(reader.advance(25), Some(ProgressEvent { percent: 250, current: 25, total: 10 }));
}

#[test]
fn large_counts_do_not_overflow() {
    let mut reader = ProgressReader::new((), u64::MAX);
    reader.current = u64::MAX - 1;
    reader.last_print = 99;
    let event = reader.advance(1);
    assert_eq!(event, Some(ProgressEvent { percent: 100, current: u64::MAX, total: u64::MAX }));
    let mut small = ProgressReader::new((), 1);
    small.current = u64::MAX - 1;
    let event = small.advance(1).unwrap();
    assert_eq!(event.percent, u64::MAX as u128 * 100);
}

#[test]
fn reports_never_repeat_or_go_back() {
    let reads = [3usize, 0, 7, 1, 1, 250, 0, 0, 38, 700, 5];
    let seen = percents(1000, &reads);
    for pair in seen.windows(2) {
        assert!(pair[0] < pair[1]);
    }
    assert_eq!(seen, vec![1, 26, 30, 100]);
}
