use lib::builtin::{exit_status_of, parse_decimal_i32, same_text};

#[test]
fn decimal_i32_accepts_what_i32_parsing_accepts() {
    for s in ["0", "42", "-7", "+8", "007", "2147483647", "-2147483648", "", "-", "+", "1a", " 1", "1 ",
              "2147483648", "-2147483649", "99999999999999999999", "--1", "+-1", "１"] {
        assert_eq!(parse_decimal_i32(s), s.parse::<i32>().ok(), "input {:?}", s);
    }
}

#[test]
fn exit_status_reads_the_first_argument() {
    let v = |xs: &[&str]| xs.iter().map(|s| s.to_string()).collect::<Vec<String>>();
    assert_eq!(exit_status_of(&v(&["exit"])), 0);
    assert_eq!(exit_status_of(&v(&["exit", "3"])), 3);
    assert_eq!(exit_status_of(&v(&["exit", "-1", "9"])), -1);
    assert_eq!(exit_status_of(&v(&["exit", "x"])), 0);
}

#[test]
fn same_text_compares_characters() {
    assert!(same_text("cd", "cd"));
    assert!(!same_text("cd", "cd "));
    assert!(!same_text("pwd", "pwe"));
    assert!(same_text("", ""));
}
