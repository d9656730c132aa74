use lib::lexer::{tokenize, Token};
use lib::parser::{parse, Pipeline};

fn p(input: &str) -> Result<Pipeline, String> {
    tokenize(input).and_then(parse)
}

#[test]
fn simple_command() {
    let pl = p("ls -l").unwrap();
    assert_eq!(pl.commands.len(), 1);
    assert_eq!(pl.commands[0].argv, vec!["ls", "-l"]);
}

#[test]
fn two_stage_pipeline() {
    let pl = p("ls | wc").unwrap();
    assert_eq!(pl.commands.len(), 2);
    assert_eq!(pl.commands[0].argv[0], "ls");
    assert_eq!(pl.commands[1].argv[0], "wc");
}

#[test]
fn redirections_parsed() {
    let pl = p("sort < in.txt > out.txt").unwrap();
    assert_eq!(pl.commands[0].stdin_from, Some("in.txt".into()));
    assert_eq!(pl.commands[0].stdout_to, Some("out.txt".into()));
}

#[test]
fn double_pipe_is_error() {
    assert!(p("ls | | wc").is_err());
}

#[test]
fn trailing_pipe_is_error() {
    assert!(p("ls |").is_err());
}

#[test]
fn leading_pipe_is_error() {
    assert!(p("| ls").is_err());
}

#[test]
fn each_error_has_its_message() {
    assert_eq!(p("cat <").unwrap_err(), "expected filename after '<'");
    assert_eq!(p("cat < | wc").unwrap_err(), "expected filename after '<'");
    assert_eq!(p("ls >").unwrap_err(), "expected filename after '>'");
    assert_eq!(p("ls > > f").unwrap_err(), "expected filename after '>'");
    assert_eq!(p("| ls").unwrap_err(), "unexpected '|': no command before pipe");
    assert_eq!(p("ls | | wc").unwrap_err(), "unexpected '|': no command before pipe");
    assert_eq!(p("ls |").unwrap_err(), "unexpected '|': no command after pipe");
    assert_eq!(parse(vec![]).unwrap_err(), "empty command");
    assert_eq!(p("> out").unwrap_err(), "empty command");
    assert_eq!(p("ls | > out").unwrap_err(), "trailing operator without command");
}

#[test]
fn redirect_without_command_before_pipe() {
    assert_eq!(p("< in | wc").unwrap_err(), "unexpected '|': no command before pipe");
}

#[test]
fn later_redirection_wins_and_words_keep_order() {
    let pl = p("cmd a < x b < y c > o1 > o2").unwrap();
    assert_eq!(pl.commands.len(), 1);
    let c = &pl.commands[0];
    assert_eq!(c.argv, vec!["cmd", "a", "b", "c"]);
    assert_eq!(c.stdin_from, Some("y".to_string()));
    assert_eq!(c.stdout_to, Some("o2".to_string()));
}

#[test]
fn three_stage_pipeline_with_redirections() {
    let pl = p("cat < in.txt | sort | head -2 > out.txt").unwrap();
    assert_eq!(pl.commands.len(), 3);
    assert_eq!(pl.commands[0].argv, vec!["cat"]);
    assert_eq!(pl.commands[0].stdin_from, Some("in.txt".to_string()));
    assert_eq!(pl.commands[0].stdout_to, None);
    assert_eq!(pl.commands[1].argv, vec!["sort"]);
    assert_eq!(pl.commands[2].argv, vec!["head", "-2"]);
    assert_eq!(pl.commands[2].stdout_to, Some("out.txt".to_string()));
}

#[test]
fn pipes_compose_pipelines() {
    let a = p("cat < in | grep x").unwrap();
    let b = p("sort > out").unwrap();
    let joined = p("cat < in | grep x | sort > out").unwrap();
    let mut expected = a.commands;
    expected.extend(b.commands);
    assert_eq!(joined.commands, expected);
}

#[test]
fn quoted_operator_is_a_word_for_the_parser() {
    let pl = parse(vec![Token::Word("echo".into()), Token::Word("|".into())]).unwrap();
    assert_eq!(pl.commands.len(), 1);
    assert_eq!(pl.commands[0].argv, vec!["echo", "|"]);
}
