use crawler::status::{parse_decimal, vm_rss_kb};

/// The resident set size read with std's own line, field and number
/// handling.
fn reference_rss(content: &str) -> Option<usize> {
    content.lines().find_map(|line| {
        if line.starts_with("VmRSS:") {
            line.split_whitespace().nth(1).and_then(|value| value.parse().ok())
        } else {
            None
        }
    })
}

const SAMPLE_STATUS: &str = "Name:\tcrawler\nUmask:\t0022\nState:\tR (running)\nVmPeak:\t   20000 kB\n\
VmSize:\t   19000 kB\nVmHWM:\t    5000 kB\nVmRSS:\t    4321 kB\nRssAnon:\t    1000 kB\nThreads:\t1\n";

#[test]
fn reads_the_rss_line_of_a_status_table() {
    assert_eq!(vm_rss_kb(SAMPLE_STATUS), Some(4321));
}

#[test]
fn no_rss_line_gives_nothing() {
    assert_eq!(vm_rss_kb(""), None);
    assert_eq!(vm_rss_kb("Name:\tx\nVmSize:\t12 kB\n"), None);
}

#[test]
fn skips_rss_lines_whose_value_does_not_read() {
    assert_eq!(vm_rss_kb("VmRSS: abc kB\nVmRSS: 77 kB\n"), Some(77));
    assert_eq!(vm_rss_kb("VmRSS:12 kB\n"), None);
    assert_eq!(vm_rss_kb("VmRSS:\n"), None);
}

#[test]
fn key_must_start_the_line() {
    assert_eq!(vm_rss_kb(" VmRSS: 5 kB\n"), None);
    assert_eq!(vm_rss_kb("vmrss: 5 kB\n"), None);
}

#[test]
fn handles_carriage_returns_and_missing_final_newline() {
    assert_eq!(vm_rss_kb("VmRSS:\t 9 kB\r\n"), Some(9));
    assert_eq!(vm_rss_kb("Name: a\r\nVmRSS: 10"), Some(10));
    assert_eq!(vm_rss_kb("VmRSS: 11\r"), Some(11));
}

#[test]
fn agrees_with_std_on_samples() {
    let samples = [
        SAMPLE_STATUS,
        "",
        "\n",
        "VmRSS: +15 kB",
        "VmRSS: -15 kB",
        "VmRSS: 18446744073709551615 kB",
        "VmRSS: 18446744073709551616 kB\nVmRSS: 3 kB",
        "VmRSS:\u{3000}42\u{a0}kB",
        "VmRSSX: 8 kB",
        "VmRSS",
        "a\n\nVmRSS: 0 kB\n",
        "VmRSS: 007 kB",
    ];
    for s in samples {
        assert_eq!(vm_rss_kb(s), reference_rss(s), "on {:?}", s);
    }
}

#[test]
fn decimal_reading_agrees_with_str_parse() {
    let samples = [
        "", "+", "-", "0", "+0", "-0", "42", "+42", "007", "1a", " 1", "1 ", "++1",
        "18446744073709551615", "18446744073709551616", "99999999999999999999999", "١٢",
    ];
    for s in samples {
        assert_eq!(parse_decimal(s), s.parse::<usize>().ok(), "on {:?}", s);
    }
}
