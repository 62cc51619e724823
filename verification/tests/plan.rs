use pulsar::plan::{plan_from_str, plan_to_string, Read};

#[test]
fn plan_roundtrip() {
    let reads = vec![
        Read {
            offset: 4096,
            len: 1536,
        },
        Read {
            offset: 1 << 33,
            len: 4718592,
        },
    ];
    assert_eq!(plan_from_str(&plan_to_string(&reads)).unwrap(), reads);
}

#[test]
fn a_plan_is_one_line_per_read() {
    let reads = [
        Read { offset: 0, len: 7 },
        Read {
            offset: 18446744073709551615,
            len: 10,
        },
    ];
    assert_eq!(plan_to_string(&reads), "0 7\n18446744073709551615 10\n");
    assert_eq!(plan_to_string(&[]), "");
}

#[test]
fn an_empty_plan_reads_back() {
    assert_eq!(plan_from_str(&plan_to_string(&[])).unwrap(), Vec::new());
}

#[test]
fn extreme_reads_read_back() {
    let reads = vec![
        Read { offset: 0, len: 0 },
        Read {
            offset: u64::MAX,
            len: u64::MAX,
        },
        Read { offset: 10, len: 9 },
    ];
    assert_eq!(plan_from_str(&plan_to_string(&reads)).unwrap(), reads);
}

#[test]
fn blank_lines_are_skipped() {
    let want = vec![Read { offset: 1, len: 2 }, Read { offset: 3, len: 4 }];
    assert_eq!(plan_from_str("\n1 2\n  \t \n\n3 4").unwrap(), want);
    assert_eq!(plan_from_str("").unwrap(), Vec::new());
    assert_eq!(plan_from_str("\u{3000}\n").unwrap(), Vec::new());
}

#[test]
fn carriage_returns_end_a_line_too() {
    let want = vec![Read { offset: 1, len: 2 }, Read { offset: 3, len: 4 }];
    assert_eq!(plan_from_str("1 2\r\n3 4\r\n").unwrap(), want);
}

#[test]
fn words_may_stand_apart_and_more_may_follow() {
    let want = vec![Read { offset: 1, len: 2 }];
    assert_eq!(plan_from_str("  1 \t 2  three 4\n").unwrap(), want);
}

#[test]
fn a_plus_sign_and_leading_zeros_are_numbers() {
    let want = vec![Read { offset: 7, len: 12 }];
    assert_eq!(plan_from_str("+7 0012\n").unwrap(), want);
}

#[test]
fn a_bad_line_is_named() {
    assert_eq!(
        plan_from_str("1 2\n 5 x \n7\n").unwrap_err(),
        "bad plan line:  5 x "
    );
    assert_eq!(plan_from_str("7\n").unwrap_err(), "bad plan line: 7");
    assert_eq!(plan_from_str("a 1\r\n").unwrap_err(), "bad plan line: a 1");
    assert_eq!(plan_from_str("-1 1").unwrap_err(), "bad plan line: -1 1");
    assert_eq!(plan_from_str("+ 1").unwrap_err(), "bad plan line: + 1");
}

#[test]
fn a_number_beyond_64_bits_is_bad() {
    assert_eq!(
        plan_from_str("18446744073709551616 1").unwrap_err(),
        "bad plan line: 18446744073709551616 1"
    );
    assert!(plan_from_str("18446744073709551615 1").is_ok());
}

#[test]
fn two_plans_join_at_a_line_feed() {
    let a = "1 2\n3 4";
    let b = "5 6\n";
    let x = plan_from_str(a).unwrap();
    let y = plan_from_str(b).unwrap();
    let both: Vec<Read> = x.iter().chain(y.iter()).copied().collect();
    for first in ["1 2\n3 4", "1 2\n3 4\n", "1 2\r\n3 4\r", "\n 1 2\n\n3 4\n \r"] {
        assert_eq!(plan_from_str(first).unwrap(), x);
        let text = format!("{}\n{}", first, b);
        assert_eq!(plan_from_str(&text).unwrap(), both);
    }
    assert_eq!(plan_from_str("\n5 6\n").unwrap(), y);
    assert!(plan_from_str("1 2\nx").is_err());
}
