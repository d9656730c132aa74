use lib::lexer::{tokenize, Token};

fn w(s: &str) -> Token {
    Token::Word(s.to_string())
}

#[test]
fn simple_words() {
    let t = tokenize("ls -l").unwrap();
    assert_eq!(t, vec![Token::Word("ls".into()), Token::Word("-l".into())]);
}

#[test]
fn double_quote_groups_spaces() {
    let t = tokenize(r#"echo "a  b""#).unwrap();
    assert_eq!(
        t,
        vec![Token::Word("echo".into()), Token::Word("a  b".into())]
    );
}

#[test]
fn single_quote_groups_spaces() {
    let t = tokenize("echo 'c  d'").unwrap();
    assert_eq!(
        t,
        vec![Token::Word("echo".into()), Token::Word("c  d".into())]
    );
}

#[test]
fn pipe_and_redirect() {
    let t = tokenize("cat < in.txt | wc > out.txt").unwrap();
    assert_eq!(
        t,
        vec![
            Token::Word("cat".into()),
            Token::RedirectIn,
            Token::Word("in.txt".into()),
            Token::Pipe,
            Token::Word("wc".into()),
            Token::RedirectOut,
            Token::Word("out.txt".into()),
        ]
    );
}

#[test]
fn operator_inside_quotes_is_literal() {
    let t = tokenize("echo '|'").unwrap();
    assert_eq!(
        t,
        vec![Token::Word("echo".into()), Token::Word("|".into())]
    );
}

#[test]
fn unterminated_double_quote_is_error() {
    assert!(tokenize(r#"echo "oops"#).is_err());
}

#[test]
fn unterminated_single_quote_is_error() {
    assert!(tokenize("echo 'oops").is_err());
}

#[test]
fn unterminated_quote_messages() {
    assert_eq!(tokenize("echo \"oops"), Err("unterminated double quote".to_string()));
    assert_eq!(tokenize("echo 'oops"), Err("unterminated single quote".to_string()));
}

#[test]
fn empty_and_blank_lines_have_no_tokens() {
    assert_eq!(tokenize(""), Ok(vec![]));
    assert_eq!(tokenize(" \t  "), Ok(vec![]));
}

#[test]
fn blanks_collapse_between_words() {
    let a = tokenize("echo one two   three").unwrap();
    let b = tokenize("  echo\tone two three \t").unwrap();
    assert_eq!(a, b);
    assert_eq!(a, vec![w("echo"), w("one"), w("two"), w("three")]);
}

#[test]
fn blank_split_joins_token_lists() {
    let left = tokenize("cat <in").unwrap();
    let right = tokenize("| wc>out").unwrap();
    let mut joined = left.clone();
    joined.extend(right);
    assert_eq!(tokenize("cat <in \t | wc>out").unwrap(), joined);
}

#[test]
fn operators_need_no_blanks() {
    assert_eq!(
        tokenize("a|b<c>d").unwrap(),
        vec![w("a"), Token::Pipe, w("b"), Token::RedirectIn, w("c"), Token::RedirectOut, w("d")]
    );
}

#[test]
fn quoted_text_is_taken_literally() {
    assert_eq!(tokenize("\"a | b < c\" x").unwrap(), vec![w("a | b < c"), w("x")]);
    assert_eq!(tokenize("'say \"hi\"'").unwrap(), vec![w("say \"hi\"")]);
    assert_eq!(tokenize("\"\"").unwrap(), vec![w("")]);
}

#[test]
fn quote_ends_a_word_but_not_inside_a_bare_word() {
    // a closing quote ends the word; what follows starts a new one
    assert_eq!(tokenize("\"a\"b").unwrap(), vec![w("a"), w("b")]);
    // a quote inside a bare word is an ordinary character
    assert_eq!(tokenize("a\"b c").unwrap(), vec![w("a\"b"), w("c")]);
}

#[test]
fn non_ascii_words() {
    assert_eq!(tokenize("echo héllo 'wörld'").unwrap(), vec![w("echo"), w("héllo"), w("wörld")]);
}
