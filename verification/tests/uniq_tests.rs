use miniutils::lines::split_lines;
use miniutils::uniq::Deduplicator;
use miniutils::uniq::process_lines;

fn run_uniq(input: &str, show_counts: bool) -> String {
    let data = input.as_bytes().to_vec();
    let lines = split_lines(&data);
    let out = process_lines(&lines, show_counts);
    String::from_utf8(out).unwrap()
}

#[test]
fn empty_input_emits_nothing() {
    assert_eq!(run_uniq("", false), "");
    assert_eq!(run_uniq("", true), "");
}

#[test]
fn single_unterminated_line_kept_unterminated() {
    assert_eq!(run_uniq("abc", false), "abc");
    assert_eq!(run_uniq("abc", true), "   1 abc");
}

#[test]
fn adjacent_duplicates_fold() {
    assert_eq!(run_uniq("a\na\nb\n", false), "a\nb\n");
    assert_eq!(run_uniq("a\na\nb\n", true), "   2 a\n   1 b\n");
}

#[test]
fn non_adjacent_repeats_stay_apart() {
    assert_eq!(run_uniq("a\nb\na\n", false), "a\nb\na\n");
    assert_eq!(run_uniq("a\nb\na\n", true), "   1 a\n   1 b\n   1 a\n");
}

#[test]
fn mixed_terminators_fold_and_keep_first() {
    assert_eq!(run_uniq("x\r\nx\n", false), "x\r\n");
    assert_eq!(run_uniq("x\r\nx\n", true), "   2 x\r\n");
}

#[test]
fn unterminated_last_line_joins_run() {
    assert_eq!(run_uniq("a\na", false), "a\n");
    assert_eq!(run_uniq("a\na", true), "   2 a\n");
}

#[test]
fn counts_sum_to_line_total() {
    let counted = run_uniq("a\na\nb\nb\nb\n", true);
    assert_eq!(counted, "   2 a\n   3 b\n");
    let total: u64 = counted
        .lines()
        .map(|l| l.trim_start().split(' ').next().unwrap().parse::<u64>().unwrap())
        .sum();
    assert_eq!(total, 5);
}

#[test]
fn grouped_output_is_stable_under_regrouping() {
    let once = run_uniq("a\na\nb\nb\nc\na\n", false);
    assert_eq!(once, "a\nb\nc\na\n");
    let twice = run_uniq(&once, false);
    assert_eq!(twice, once);
}

#[test]
fn streaming_engine_flushes_on_change_only() {
    let mut d = Deduplicator::new(true);
    assert_eq!(d.push(&b"a\n".to_vec()), None);
    assert_eq!(d.push(&b"a\n".to_vec()), None);
    let flushed = d.push(&b"b\n".to_vec());
    assert_eq!(flushed, Some(b"   2 a\n".to_vec()));
    let tail = d.finish();
    assert_eq!(tail, Some(b"   1 b\n".to_vec()));
    assert_eq!(d.finish(), None);
}

#[test]
fn wide_counts_keep_all_digits() {
    let mut input = String::new();
    for _ in 0..12345 {
        input.push_str("a\n");
    }
    assert_eq!(run_uniq(&input, true), "12345 a\n");
}
