use crawler::report::{memory_usage, output_file_name, tally_outcomes};

#[test]
fn tally_counts_successes_and_failures() {
    let t = tally_outcomes(&[true, false, true, true, false]);
    assert_eq!(t.succeeded, 3);
    assert_eq!(t.failed, 2);
}

#[test]
fn tally_of_an_empty_run_is_zero() {
    let t = tally_outcomes(&[]);
    assert_eq!((t.succeeded, t.failed), (0, 0));
}

#[test]
fn tally_adds_up_to_the_number_of_outcomes() {
    let outcomes: Vec<bool> = (0..33).map(|i| i % 3 != 0).collect();
    let t = tally_outcomes(&outcomes);
    assert_eq!(t.succeeded + t.failed, outcomes.len());
    assert_eq!(t.succeeded, 22);
}

#[test]
fn file_name_appends_txt() {
    assert_eq!(output_file_name("清华大学"), "清华大学.txt");
    assert_eq!(output_file_name(""), ".txt");
}

#[test]
fn memory_increase_saturates_at_zero() {
    let grown = memory_usage(1000, 1500);
    assert_eq!((grown.before_kb, grown.after_kb, grown.increase_kb), (1000, 1500, 500));
    let shrunk = memory_usage(2000, 1500);
    assert_eq!(shrunk.increase_kb, 0);
    let same = memory_usage(7, 7);
    assert_eq!(same.increase_kb, 0);
}
