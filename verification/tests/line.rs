use lib::line::{plan_line, LinePlan};

#[test]
fn lex_error_ends_the_line_with_1() {
    match plan_line("echo \"oops") {
        LinePlan::Finished { status, message } => {
            assert_eq!(status, 1);
            assert_eq!(message, Some("unterminated double quote".to_string()));
        }
        other => panic!("unexpected {:?}", other),
    }
}

#[test]
fn parse_error_ends_the_line_with_1() {
    match plan_line("ls | | wc") {
        LinePlan::Finished { status, message } => {
            assert_eq!(status, 1);
            assert_eq!(message, Some("unexpected '|': no command before pipe".to_string()));
        }
        other => panic!("unexpected {:?}", other),
    }
}

#[test]
fn blank_line_ends_with_0() {
    match plan_line("   ") {
        LinePlan::Finished { status, message } => {
            assert_eq!(status, 0);
            assert_eq!(message, None);
        }
        other => panic!("unexpected {:?}", other),
    }
}

#[test]
fn good_line_is_run() {
    match plan_line("echo hello | tr a-z A-Z") {
        LinePlan::Run(p) => {
            assert_eq!(p.commands.len(), 2);
            assert_eq!(p.commands[1].argv, vec!["tr", "a-z", "A-Z"]);
        }
        other => panic!("unexpected {:?}", other),
    }
}
