//! Turns a flat list of tokens into a pipeline of commands.
use vstd::prelude::*;

use crate::lexer::{Token, TokenView, tokens_view};

verus! {

/// One command of a pipeline, e.g. `grep ".rs" < input.txt`.
#[derive(Debug, PartialEq)]
pub struct Cmd {
    /// The program name followed by its arguments.
    pub argv: Vec<String>,
    /// The file named after `<`, if any.
    pub stdin_from: Option<String>,
    /// The file named after `>`, if any.
    pub stdout_to: Option<String>,
}

/// One or more commands joined by `|`.
#[derive(Debug, PartialEq)]
pub struct Pipeline {
    pub commands: Vec<Cmd>,
}

/// The mathematical model of a command.
pub struct CmdView {
    pub argv: Seq<Seq<char>>,
    pub stdin_from: Option<Seq<char>>,
    pub stdout_to: Option<Seq<char>>,
}

/// The model of a list of strings.
pub open spec fn strings_view(v: Seq<String>) -> Seq<Seq<char>> {
    v.map_values(|s: String| s@)
}

/// The model of an optional string.
pub open spec fn opt_string_view(o: Option<String>) -> Option<Seq<char>> {
    match o {
        Some(s) => Some(s@),
        None => None,
    }
}

impl View for Cmd {
    type V = CmdView;

    open spec fn view(&self) -> CmdView {
        CmdView {
            argv: strings_view(self.argv@),
            stdin_from: opt_string_view(self.stdin_from),
            stdout_to: opt_string_view(self.stdout_to),
        }
    }
}

/// The model of a list of commands.
pub open spec fn cmds_view(v: Seq<Cmd>) -> Seq<CmdView> {
    v.map_values(|c: Cmd| c@)
}

impl View for Pipeline {
    type V = Seq<CmdView>;

    open spec fn view(&self) -> Seq<CmdView> {
        cmds_view(self.commands@)
    }
}

/// A command with no words and no redirections.
pub open spec fn empty_cmd() -> CmdView {
    CmdView { argv: seq![], stdin_from: None, stdout_to: None }
}

/// A pipeline that can be run: at least one command, and each has a program name.
pub open spec fn pipeline_wf(cs: Seq<CmdView>) -> bool {
    &&& cs.len() >= 1
    &&& forall|i: int| 0 <= i < cs.len() ==> #[trigger] cs[i].argv.len() >= 1
}

/// Why a list of tokens is not a pipeline.
pub enum ParseError {
    MissingInputFile,
    MissingOutputFile,
    NoCommandBeforePipe,
    NoCommandAfterPipe,
    EmptyCommand,
    TrailingOperator,
}

impl ParseError {
    /// The message the parser reports for this error.
    pub open spec fn message(self) -> Seq<char> {
        match self {
            ParseError::MissingInputFile => "expected filename after '<'"@,
            ParseError::MissingOutputFile => "expected filename after '>'"@,
            ParseError::NoCommandBeforePipe => "unexpected '|': no command before pipe"@,
            ParseError::NoCommandAfterPipe => "unexpected '|': no command after pipe"@,
            ParseError::EmptyCommand => "empty command"@,
            ParseError::TrailingOperator => "trailing operator without command"@,
        }
    }
}

/// Puts `c` in front of a successful result; an error stays as it is.
pub open spec fn cons_cmd(c: CmdView, r: Result<Seq<CmdView>, ParseError>) -> Result<
    Seq<CmdView>,
    ParseError,
> {
    match r {
        Ok(cs) => Ok(seq![c] + cs),
        Err(e) => Err(e),
    }
}

/// Puts `cs` in front of a successful result; an error stays as it is.
pub open spec fn prefix_cmds(cs: Seq<CmdView>, r: Result<Seq<CmdView>, ParseError>) -> Result<
    Seq<CmdView>,
    ParseError,
> {
    match r {
        Ok(rest) => Ok(cs + rest),
        Err(e) => Err(e),
    }
}

/// The commands that the tokens `ts` complete, read from left to right, where
/// `cur` is the command assembled so far and `first` tells whether no command
/// has been completed before it.
pub open spec fn parse_cmds(ts: Seq<TokenView>, cur: CmdView, first: bool) -> Result<
    Seq<CmdView>,
    ParseError,
>
    decreases ts.len(),
{
    if ts.len() == 0 {
        if cur.argv.len() == 0 {
            Err(
                if first {
                    ParseError::EmptyCommand
                } else {
                    ParseError::TrailingOperator
                },
            )
        } else {
            Ok(seq![cur])
        }
    } else {
        let rest = ts.drop_first();
        match ts[0] {
            TokenView::Word(w) => parse_cmds(rest, CmdView { argv: cur.argv.push(w), ..cur }, first),
            TokenView::RedirectIn => {
                if rest.len() > 0 && rest[0] is Word {
                    parse_cmds(
                        rest.drop_first(),
                        CmdView { stdin_from: Some(rest[0]->Word_0), ..cur },
                        first,
                    )
                } else {
                    Err(ParseError::MissingInputFile)
                }
            },
            TokenView::RedirectOut => {
                if rest.len() > 0 && rest[0] is Word {
                    parse_cmds(
                        rest.drop_first(),
                        CmdView { stdout_to: Some(rest[0]->Word_0), ..cur },
                        first,
                    )
                } else {
                    Err(ParseError::MissingOutputFile)
                }
            },
            TokenView::Pipe => {
                if cur.argv.len() == 0 {
                    Err(ParseError::NoCommandBeforePipe)
                } else if rest.len() == 0 {
                    Err(ParseError::NoCommandAfterPipe)
                } else {
                    cons_cmd(cur, parse_cmds(rest, empty_cmd(), false))
                }
            },
        }
    }
}

/// The pipeline that the tokens `ts` describe.
pub open spec fn parse_tokens(ts: Seq<TokenView>) -> Result<Seq<CmdView>, ParseError> {
    parse_cmds(ts, empty_cmd(), true)
}

/// A copy of an optional string.
fn clone_opt(o: &Option<String>) -> (r: Option<String>)
    ensures
        opt_string_view(r) == opt_string_view(*o),
{
    match o {
        Some(s) => Some(s.clone()),
        None => None,
    }
}

/// Turns a list of tokens into a pipeline.
///
/// Returns the pipeline that `parse_tokens` reads from the tokens, or the
/// message of the first error met from left to right. A pipeline returned
/// has at least one command, and each of its commands has a program name.
pub fn parse(tokens: Vec<Token>) -> (res: Result<Pipeline, String>)
    ensures
        match parse_tokens(tokens_view(tokens@)) {
            Ok(cs) => res matches Ok(p) && p@ == cs,
            Err(e) => res matches Err(m) && m@ == e.message(),
        },
        res matches Ok(p) ==> pipeline_wf(p@),
{
    let ghost ts = tokens_view(tokens@);
    let n = tokens.len();
    let mut commands: Vec<Cmd> = Vec::new();
    let mut argv: Vec<String> = Vec::new();
    let mut stdin_from: Option<String> = None;
    let mut stdout_to: Option<String> = None;
    let mut i: usize = 0;
    proof {
        assert(ts.skip(0) == ts);
        assert(strings_view(argv@) == Seq::<Seq<char>>::empty());
        match parse_tokens(ts) {
            Ok(rest) => {
                assert(cmds_view(commands@) + rest == rest);
            },
            Err(_) => {},
        }
    }
    while i < n
        invariant
            ts == tokens_view(tokens@),
            n == tokens@.len(),
            i <= n,
            parse_tokens(ts) == prefix_cmds(
                cmds_view(commands@),
                parse_cmds(
                    ts.skip(i as int),
                    CmdView {
                        argv: strings_view(argv@),
                        stdin_from: opt_string_view(stdin_from),
                        stdout_to: opt_string_view(stdout_to),
                    },
                    commands@.len() == 0,
                ),
            ),
        decreases n - i,
    {
        let ghost rest = ts.skip(i as int);
        let ghost cur = CmdView {
            argv: strings_view(argv@),
            stdin_from: opt_string_view(stdin_from),
            stdout_to: opt_string_view(stdout_to),
        };
        let ghost done = cmds_view(commands@);
        assert(rest[0] == tokens@[i as int]@);
        assert(rest.drop_first() == ts.skip(i + 1));
        match &tokens[i] {
            Token::Word(w) => {
                argv.push(w.clone());
                i = i + 1;
                assert(strings_view(argv@) == cur.argv.push(rest[0]->Word_0));
            },
            Token::RedirectIn | Token::RedirectOut => {
                let is_in = match &tokens[i] {
                    Token::RedirectIn => true,
                    _ => false,
                };
                if i + 1 < n {
                    assert(rest.drop_first()[0] == tokens@[i + 1]@);
                    assert(rest.drop_first().drop_first() == ts.skip(i + 2));
                }
                let file = if i + 1 < n {
                    match &tokens[i + 1] {
                        Token::Word(f) => Some(f.clone()),
                        _ => None,
                    }
                } else {
                    None
                };
                match file {
                    Some(f) => {
                        if is_in {
                            stdin_from = Some(f);
                        } else {
                            stdout_to = Some(f);
                        }
                        i = i + 2;
                    },
                    None => {
                        if is_in {
                            return Err("expected filename after '<'".to_owned());
                        } else {
                            return Err("expected filename after '>'".to_owned());
                        }
                    },
                }
            },
            Token::Pipe => {
                if argv.len() == 0 {
                    return Err("unexpected '|': no command before pipe".to_owned());
                }
                let cmd = Cmd { argv, stdin_from, stdout_to };
                assert(cmd@ == cur);
                commands.push(cmd);
                argv = Vec::new();
                stdin_from = None;
                stdout_to = None;
                i = i + 1;
                if i >= n {
                    return Err("unexpected '|': no command after pipe".to_owned());
                }
                proof {
                    assert(cmds_view(commands@) == done + seq![cur]);
                    assert(strings_view(argv@) == Seq::<Seq<char>>::empty());
                    match parse_cmds(ts.skip(i as int), empty_cmd(), false) {
                        Ok(later) => {
                            assert(done + (seq![cur] + later) == done + seq![cur] + later);
                        },
                        Err(_) => {},
                    }
                }
            },
        }
    }
    proof {
        assert(ts.skip(n as int) == Seq::<TokenView>::empty());
    }
    if argv.len() == 0 {
        if commands.len() == 0 {
            return Err("empty command".to_owned());
        }
        return Err("trailing operator without command".to_owned());
    }
    let ghost done = cmds_view(commands@);
    let cmd = Cmd { argv, stdin_from, stdout_to };
    commands.push(cmd);
    proof {
        assert(cmds_view(commands@) == done + seq![cmd@]);
        lemma_parse_wf(ts);
    }
    Ok(Pipeline { commands })
}

/// What the parser completes is a runnable pipeline, extended by the commands
/// completed before.
proof fn lemma_parse_cmds_wf(ts: Seq<TokenView>, cur: CmdView, first: bool)
    ensures
        parse_cmds(ts, cur, first) matches Ok(cs) ==> pipeline_wf(cs),
    decreases ts.len(),
{
    if ts.len() > 0 {
        let rest = ts.drop_first();
        match ts[0] {
            TokenView::Word(w) => {
                lemma_parse_cmds_wf(rest, CmdView { argv: cur.argv.push(w), ..cur }, first);
            },
            TokenView::RedirectIn => {
                if rest.len() > 0 && rest[0] is Word {
                    lemma_parse_cmds_wf(
                        rest.drop_first(),
                        CmdView { stdin_from: Some(rest[0]->Word_0), ..cur },
                        first,
                    );
                }
            },
            TokenView::RedirectOut => {
                if rest.len() > 0 && rest[0] is Word {
                    lemma_parse_cmds_wf(
                        rest.drop_first(),
                        CmdView { stdout_to: Some(rest[0]->Word_0), ..cur },
                        first,
                    );
                }
            },
            TokenView::Pipe => {
                lemma_parse_cmds_wf(rest, empty_cmd(), false);
                if let Ok(cs) = parse_cmds(ts, cur, first) {
                    let later = parse_cmds(rest, empty_cmd(), false)->Ok_0;
                    assert forall|i: int| 0 <= i < cs.len() implies #[trigger] cs[i].argv.len()
                        >= 1 by {
                        if i > 0 {
                            assert(cs[i] == later[i - 1]);
                        }
                    }
                }
            },
        }
    }
}

/// Every pipeline the parser accepts has at least one command, and each of its
/// commands has a program name.
pub proof fn lemma_parse_wf(ts: Seq<TokenView>)
    ensures
        parse_tokens(ts) matches Ok(cs) ==> pipeline_wf(cs),
{
    lemma_parse_cmds_wf(ts, empty_cmd(), true);
}

/// Whether a command came before only decides which error an empty last
/// command reports: whether the parse succeeds, and what it gives, does not
/// depend on it.
proof fn lemma_parse_cmds_first(ts: Seq<TokenView>, cur: CmdView)
    ensures
        parse_cmds(ts, cur, true) is Ok <==> parse_cmds(ts, cur, false) is Ok,
        parse_cmds(ts, cur, true) is Ok ==> parse_cmds(ts, cur, false) == parse_cmds(ts, cur, true),
    decreases ts.len(),
{
    if ts.len() > 0 {
        let rest = ts.drop_first();
        match ts[0] {
            TokenView::Word(w) => {
                lemma_parse_cmds_first(rest, CmdView { argv: cur.argv.push(w), ..cur });
            },
            TokenView::RedirectIn => {
                if rest.len() > 0 && rest[0] is Word {
                    lemma_parse_cmds_first(
                        rest.drop_first(),
                        CmdView { stdin_from: Some(rest[0]->Word_0), ..cur },
                    );
                }
            },
            TokenView::RedirectOut => {
                if rest.len() > 0 && rest[0] is Word {
                    lemma_parse_cmds_first(
                        rest.drop_first(),
                        CmdView { stdout_to: Some(rest[0]->Word_0), ..cur },
                    );
                }
            },
            TokenView::Pipe => {},
        }
    }
}

/// A pipe after tokens that complete the commands `parse_cmds(t1, ..)`, and
/// before more tokens, continues with the commands of those tokens.
proof fn lemma_parse_cmds_pipe(t1: Seq<TokenView>, t2: Seq<TokenView>, cur: CmdView, first: bool)
    requires
        parse_cmds(t1, cur, first) is Ok,
        t2.len() >= 1,
    ensures
        parse_cmds(t1 + seq![TokenView::Pipe] + t2, cur, first) == prefix_cmds(
            parse_cmds(t1, cur, first)->Ok_0,
            parse_cmds(t2, empty_cmd(), false),
        ),
    decreases t1.len(),
{
    let t = t1 + seq![TokenView::Pipe] + t2;
    if t1.len() == 0 {
        assert(t[0] == TokenView::Pipe);
        assert(t.drop_first() == t2);
    } else {
        let rest1 = t1.drop_first();
        assert(t[0] == t1[0]);
        assert(t.drop_first() == rest1 + seq![TokenView::Pipe] + t2);
        match t1[0] {
            TokenView::Word(w) => {
                lemma_parse_cmds_pipe(rest1, t2, CmdView { argv: cur.argv.push(w), ..cur }, first);
            },
            TokenView::RedirectIn => {
                assert(t.drop_first()[0] == rest1[0]);
                assert(t.drop_first().drop_first() == rest1.drop_first() + seq![TokenView::Pipe]
                    + t2);
                lemma_parse_cmds_pipe(
                    rest1.drop_first(),
                    t2,
                    CmdView { stdin_from: Some(rest1[0]->Word_0), ..cur },
                    first,
                );
            },
            TokenView::RedirectOut => {
                assert(t.drop_first()[0] == rest1[0]);
                assert(t.drop_first().drop_first() == rest1.drop_first() + seq![TokenView::Pipe]
                    + t2);
                lemma_parse_cmds_pipe(
                    rest1.drop_first(),
                    t2,
                    CmdView { stdout_to: Some(rest1[0]->Word_0), ..cur },
                    first,
                );
            },
            TokenView::Pipe => {
                lemma_parse_cmds_pipe(rest1, t2, empty_cmd(), false);
                let later = parse_cmds(rest1, empty_cmd(), false)->Ok_0;
                match parse_cmds(t2, empty_cmd(), false) {
                    Ok(cs) => {
                        assert(seq![cur] + (later + cs) == seq![cur] + later + cs);
                    },
                    Err(_) => {},
                }
            },
        }
    }
}

/// Pipelines compose: joining the tokens of two pipelines with a pipe gives
/// the commands of the first followed by those of the second.
pub proof fn lemma_parse_pipe_concat(t1: Seq<TokenView>, t2: Seq<TokenView>)
    requires
        parse_tokens(t1) is Ok,
        parse_tokens(t2) is Ok,
    ensures
        parse_tokens(t1 + seq![TokenView::Pipe] + t2) == Ok::<Seq<CmdView>, ParseError>(
            parse_tokens(t1)->Ok_0 + parse_tokens(t2)->Ok_0,
        ),
{
    if t2.len() == 0 {
        assert(parse_tokens(t2) == Err::<Seq<CmdView>, ParseError>(ParseError::EmptyCommand));
    }
    lemma_parse_cmds_first(t2, empty_cmd());
    lemma_parse_cmds_pipe(t1, t2, empty_cmd(), true);
}

/// `<` or `>`.
pub open spec fn is_redirect(t: TokenView) -> bool {
    t == TokenView::RedirectIn || t == TokenView::RedirectOut
}

/// The words of a command's tokens that are not the file of a redirection.
pub open spec fn command_words(ts: Seq<TokenView>) -> Seq<Seq<char>>
    decreases ts.len(),
{
    if ts.len() == 0 {
        seq![]
    } else if is_redirect(ts[0]) {
        if ts.len() >= 2 {
            command_words(ts.skip(2))
        } else {
            seq![]
        }
    } else {
        match ts[0] {
            TokenView::Word(w) => seq![w] + command_words(ts.drop_first()),
            _ => command_words(ts.drop_first()),
        }
    }
}

/// Every `<` and `>` is followed by a word, the file it names.
pub open spec fn targets_named(ts: Seq<TokenView>) -> bool {
    forall|k: int| 0 <= k < ts.len() && is_redirect(#[trigger] ts[k]) ==> k + 1 < ts.len() && ts[k + 1] is Word
}

/// The file named after the last `op` of `ts`, if any.
spec fn last_target(ts: Seq<TokenView>, op: TokenView) -> Option<Seq<char>>
    decreases ts.len(),
{
    if ts.len() == 0 {
        None
    } else {
        match last_target(ts.drop_first(), op) {
            Some(f) => Some(f),
            None => if ts[0] == op && ts.len() >= 2 && ts[1] is Word {
                Some(ts[1]->Word_0)
            } else {
                None
            },
        }
    }
}

proof fn lemma_targets_named_shift(ts: Seq<TokenView>)
    requires
        ts.len() >= 1,
    ensures
        !is_redirect(ts[0]) ==> (targets_named(ts) <==> targets_named(ts.drop_first())),
        is_redirect(ts[0]) ==> (targets_named(ts) <==> (ts.len() >= 2 && ts[1] is Word
            && targets_named(ts.skip(2)))),
{
    let r = ts.drop_first();
    if !is_redirect(ts[0]) {
        if targets_named(ts) {
            assert forall|k: int| 0 <= k < r.len() && is_redirect(#[trigger] r[k]) implies k + 1
                < r.len() && r[k + 1] is Word by {
                assert(r[k] == ts[k + 1]);
                assert(ts[k + 2] == r[k + 1]);
            }
        }
        if targets_named(r) {
            assert forall|k: int| 0 <= k < ts.len() && is_redirect(#[trigger] ts[k]) implies k + 1
                < ts.len() && ts[k + 1] is Word by {
                assert(ts[k] == r[k - 1]);
                assert(r[k] == ts[k + 1]);
            }
        }
    } else if ts.len() >= 2 && ts[1] is Word {
        let r2 = ts.skip(2);
        if targets_named(ts) {
            assert forall|k: int| 0 <= k < r2.len() && is_redirect(#[trigger] r2[k]) implies k + 1
                < r2.len() && r2[k + 1] is Word by {
                assert(r2[k] == ts[k + 2]);
                assert(ts[k + 3] == r2[k + 1]);
            }
        }
        if targets_named(r2) {
            assert forall|k: int| 0 <= k < ts.len() && is_redirect(#[trigger] ts[k]) implies k + 1
                < ts.len() && ts[k + 1] is Word by {
                if k >= 2 {
                    assert(ts[k] == r2[k - 2]);
                    assert(r2[k - 1] == ts[k + 1]);
                }
            }
        }
    } else {
        assert(is_redirect(ts[0]));
    }
}

/// The file after the last `op` is the word that follows its last occurrence.
proof fn lemma_last_target_at(ts: Seq<TokenView>, op: TokenView)
    requires
        targets_named(ts),
        op == TokenView::RedirectIn || op == TokenView::RedirectOut,
    ensures
        forall|k: int|
            0 <= k < ts.len() && #[trigger] ts[k] == op && (forall|j: int| k < j < ts.len() ==> ts[j]
                != op) ==> last_target(ts, op) == Some(ts[k + 1]->Word_0),
        (forall|j: int| 0 <= j < ts.len() ==> ts[j] != op) ==> last_target(ts, op) is None,
    decreases ts.len(),
{
    if ts.len() > 0 {
        let r = ts.drop_first();
        lemma_targets_named_shift(ts);
        if is_redirect(ts[0]) {
            let r2 = ts.skip(2);
            lemma_last_target_at(r2, op);
            assert(r[0] == ts[1]);
            assert(r.drop_first() == r2);
            assert(last_target(r, op) == last_target(r2, op));
            assert forall|k: int|
                0 <= k < ts.len() && #[trigger] ts[k] == op && (forall|j: int|
                    k < j < ts.len() ==> ts[j] != op) implies last_target(ts, op) == Some(
                ts[k + 1]->Word_0,
            ) by {
                if k >= 2 {
                    assert(r2[k - 2] == ts[k]);
                    assert forall|j: int| k - 2 < j < r2.len() implies r2[j] != op by {
                        assert(r2[j] == ts[j + 2]);
                    }
                    assert(r2[k - 1] == ts[k + 1]);
                } else if k == 0 {
                    assert forall|j: int| 0 <= j < r2.len() implies r2[j] != op by {
                        assert(r2[j] == ts[j + 2]);
                    }
                }
            }
            if forall|j: int| 0 <= j < ts.len() ==> ts[j] != op {
                assert forall|j: int| 0 <= j < r2.len() implies r2[j] != op by {
                    assert(r2[j] == ts[j + 2]);
                }
            }
        } else {
            lemma_last_target_at(r, op);
            assert forall|k: int|
                0 <= k < ts.len() && #[trigger] ts[k] == op && (forall|j: int|
                    k < j < ts.len() ==> ts[j] != op) implies last_target(ts, op) == Some(
                ts[k + 1]->Word_0,
            ) by {
                assert(k >= 1);
                assert(r[k - 1] == ts[k]);
                assert forall|j: int| k - 1 < j < r.len() implies r[j] != op by {
                    assert(r[j] == ts[j + 1]);
                }
                assert(r[k] == ts[k + 1]);
            }
            if forall|j: int| 0 <= j < ts.len() ==> ts[j] != op {
                assert forall|j: int| 0 <= j < r.len() implies r[j] != op by {
                    assert(r[j] == ts[j + 1]);
                }
            }
        }
    }
}

/// The command that tokens without a pipe complete, from the command `cur`.
proof fn lemma_parse_cmds_single(ts: Seq<TokenView>, cur: CmdView, first: bool)
    requires
        forall|k: int| 0 <= k < ts.len() ==> #[trigger] ts[k] != TokenView::Pipe,
    ensures
        parse_cmds(ts, cur, first) is Ok <==> (targets_named(ts) && cur.argv.len()
            + command_words(ts).len() > 0),
        parse_cmds(ts, cur, first) is Ok ==> parse_cmds(ts, cur, first)->Ok_0 == seq![
            CmdView {
                argv: cur.argv + command_words(ts),
                stdin_from: match last_target(ts, TokenView::RedirectIn) {
                    Some(f) => Some(f),
                    None => cur.stdin_from,
                },
                stdout_to: match last_target(ts, TokenView::RedirectOut) {
                    Some(f) => Some(f),
                    None => cur.stdout_to,
                },
            },
        ],
    decreases ts.len(),
{
    if ts.len() == 0 {
        assert(cur.argv + command_words(ts) == cur.argv);
    } else {
        let r = ts.drop_first();
        lemma_targets_named_shift(ts);
        assert forall|k: int| 0 <= k < r.len() implies #[trigger] r[k] != TokenView::Pipe by {
            assert(r[k] == ts[k + 1]);
        }
        match ts[0] {
            TokenView::Word(w) => {
                let c2 = CmdView { argv: cur.argv.push(w), ..cur };
                lemma_parse_cmds_single(r, c2, first);
                assert(cur.argv.push(w) + command_words(r) == cur.argv + (seq![w] + command_words(r)));
            },
            TokenView::Pipe => {
                assert(ts[0] != TokenView::Pipe);
            },
            _ => {
                if ts.len() >= 2 && ts[1] is Word {
                    let r2 = ts.skip(2);
                    assert(r.drop_first() == r2);
                    assert(r[0] == ts[1]);
                    assert forall|k: int| 0 <= k < r2.len() implies #[trigger] r2[k]
                        != TokenView::Pipe by {
                        assert(r2[k] == ts[k + 2]);
                    }
                    let f = ts[1]->Word_0;
                    let c2 = if ts[0] == TokenView::RedirectIn {
                        CmdView { stdin_from: Some(f), ..cur }
                    } else {
                        CmdView { stdout_to: Some(f), ..cur }
                    };
                    lemma_parse_cmds_single(r2, c2, first);
                    assert(last_target(r, TokenView::RedirectIn) == last_target(r2, TokenView::RedirectIn));
                    assert(last_target(r, TokenView::RedirectOut) == last_target(r2, TokenView::RedirectOut));
                }
            },
        }
    }
}

/// A command is its words with its redirections, in any order: tokens
/// without a pipe parse exactly when every `<` and `>` names a file and some
/// word is left for the command; then they give one command whose arguments
/// are the words that name no file, in order, and which reads from the file
/// after its last `<` and writes to the file after its last `>`, wherever
/// these stand among the words and each other.
pub proof fn lemma_parse_single_command(ts: Seq<TokenView>)
    requires
        forall|k: int| 0 <= k < ts.len() ==> #[trigger] ts[k] != TokenView::Pipe,
    ensures
        parse_tokens(ts) is Ok <==> (targets_named(ts) && command_words(ts).len() > 0),
        parse_tokens(ts) is Ok ==> {
            let cs = parse_tokens(ts)->Ok_0;
            &&& cs.len() == 1
            &&& cs[0].argv == command_words(ts)
            &&& forall|k: int|
                0 <= k < ts.len() && #[trigger] ts[k] == TokenView::RedirectIn && (forall|j: int|
                    k < j < ts.len() ==> ts[j] != TokenView::RedirectIn) ==> cs[0].stdin_from
                    == Some(ts[k + 1]->Word_0)
            &&& (forall|j: int| 0 <= j < ts.len() ==> ts[j] != TokenView::RedirectIn)
                ==> cs[0].stdin_from is None
            &&& forall|k: int|
                0 <= k < ts.len() && #[trigger] ts[k] == TokenView::RedirectOut && (forall|j: int|
                    k < j < ts.len() ==> ts[j] != TokenView::RedirectOut) ==> cs[0].stdout_to
                    == Some(ts[k + 1]->Word_0)
            &&& (forall|j: int| 0 <= j < ts.len() ==> ts[j] != TokenView::RedirectOut)
                ==> cs[0].stdout_to is None
        },
{
    lemma_parse_cmds_single(ts, empty_cmd(), true);
    assert(empty_cmd().argv + command_words(ts) == command_words(ts));
    if parse_tokens(ts) is Ok {
        lemma_last_target_at(ts, TokenView::RedirectIn);
        lemma_last_target_at(ts, TokenView::RedirectOut);
    }
}

/// Tokens that fail to make a command also fail with a pipe and more after them.
proof fn lemma_parse_cmds_err_pipe(t1: Seq<TokenView>, t2: Seq<TokenView>, cur: CmdView, first: bool)
    requires
        forall|k: int| 0 <= k < t1.len() ==> #[trigger] t1[k] != TokenView::Pipe,
        parse_cmds(t1, cur, first) is Err,
    ensures
        parse_cmds(t1 + seq![TokenView::Pipe] + t2, cur, first) is Err,
    decreases t1.len(),
{
    let t = t1 + seq![TokenView::Pipe] + t2;
    if t1.len() > 0 {
        let rest1 = t1.drop_first();
        assert(t[0] == t1[0]);
        assert(t.drop_first() == rest1 + seq![TokenView::Pipe] + t2);
        assert forall|k: int| 0 <= k < rest1.len() implies #[trigger] rest1[k] != TokenView::Pipe by {
            assert(rest1[k] == t1[k + 1]);
        }
        match t1[0] {
            TokenView::Word(w) => {
                lemma_parse_cmds_err_pipe(rest1, t2, CmdView { argv: cur.argv.push(w), ..cur }, first);
            },
            TokenView::Pipe => {
                assert(t1[0] != TokenView::Pipe);
            },
            _ => {
                if rest1.len() > 0 && rest1[0] is Word {
                    assert(t.drop_first()[0] == rest1[0]);
                    assert(t.drop_first().drop_first() == rest1.drop_first() + seq![TokenView::Pipe]
                        + t2);
                    assert forall|k: int| 0 <= k < rest1.drop_first().len() implies #[trigger] rest1.drop_first()[k] != TokenView::Pipe by {
                        assert(rest1.drop_first()[k] == t1[k + 2]);
                    }
                    let f = rest1[0]->Word_0;
                    if t1[0] == TokenView::RedirectIn {
                        lemma_parse_cmds_err_pipe(rest1.drop_first(), t2, CmdView { stdin_from: Some(f), ..cur }, first);
                    } else {
                        lemma_parse_cmds_err_pipe(rest1.drop_first(), t2, CmdView { stdout_to: Some(f), ..cur }, first);
                    }
                } else if rest1.len() == 0 {
                    assert(t.drop_first()[0] == TokenView::Pipe);
                }
            },
        }
    } else {
        assert(t[0] == TokenView::Pipe);
    }
}

/// A pipeline parses exactly when each of its commands does: for a first
/// command `t1` without a pipe, `t1 | t2` parses exactly when `t1` and `t2`
/// both parse (and then gives the commands of `t1` followed by those of `t2`).
pub proof fn lemma_parse_pipe_iff(t1: Seq<TokenView>, t2: Seq<TokenView>)
    requires
        forall|k: int| 0 <= k < t1.len() ==> #[trigger] t1[k] != TokenView::Pipe,
    ensures
        parse_tokens(t1 + seq![TokenView::Pipe] + t2) is Ok <==> (parse_tokens(t1) is Ok
            && parse_tokens(t2) is Ok),
{
    if parse_tokens(t1) is Err {
        lemma_parse_cmds_err_pipe(t1, t2, empty_cmd(), true);
    } else if parse_tokens(t2) is Ok {
        lemma_parse_pipe_concat(t1, t2);
    } else {
        lemma_parse_cmds_first(t2, empty_cmd());
        if t2.len() > 0 {
            lemma_parse_cmds_pipe(t1, t2, empty_cmd(), true);
        } else {
            lemma_parse_cmds_end(t1, TokenView::Pipe, empty_cmd(), true);
        }
    }
}

/// An operator at the end of a command is an error of its own.
proof fn lemma_parse_cmds_end(t: Seq<TokenView>, x: TokenView, cur: CmdView, first: bool)
    requires
        forall|k: int| 0 <= k < t.len() ==> #[trigger] t[k] != TokenView::Pipe,
        parse_cmds(t, cur, first) is Ok,
        !(x is Word),
    ensures
        parse_cmds(t + seq![x], cur, first) == Err::<Seq<CmdView>, ParseError>(
            if x == TokenView::Pipe {
                ParseError::NoCommandAfterPipe
            } else if x == TokenView::RedirectIn {
                ParseError::MissingInputFile
            } else {
                ParseError::MissingOutputFile
            },
        ),
    decreases t.len(),
{
    let s = t + seq![x];
    if t.len() == 0 {
        assert(s[0] == x);
        assert(s.drop_first().len() == 0);
    } else {
        let rest = t.drop_first();
        assert(s[0] == t[0]);
        assert(s.drop_first() == rest + seq![x]);
        assert forall|k: int| 0 <= k < rest.len() implies #[trigger] rest[k] != TokenView::Pipe by {
            assert(rest[k] == t[k + 1]);
        }
        match t[0] {
            TokenView::Word(w) => {
                lemma_parse_cmds_end(rest, x, CmdView { argv: cur.argv.push(w), ..cur }, first);
            },
            TokenView::Pipe => {
                assert(t[0] != TokenView::Pipe);
            },
            _ => {
                assert(s.drop_first()[0] == rest[0]);
                assert(s.drop_first().drop_first() == rest.drop_first() + seq![x]);
                assert forall|k: int| 0 <= k < rest.drop_first().len() implies #[trigger] rest.drop_first()[k] != TokenView::Pipe by {
                    assert(rest.drop_first()[k] == t[k + 2]);
                }
                let f = rest[0]->Word_0;
                if t[0] == TokenView::RedirectIn {
                    lemma_parse_cmds_end(rest.drop_first(), x, CmdView { stdin_from: Some(f), ..cur }, first);
                } else {
                    lemma_parse_cmds_end(rest.drop_first(), x, CmdView { stdout_to: Some(f), ..cur }, first);
                }
            },
        }
    }
}

/// The errors of a malformed pipeline: no tokens at all is an empty command;
/// a pipe first has no command before it; after a well-formed command, a
/// final pipe has no command after it, and a final `<` or `>` names no file.
pub proof fn lemma_parse_errors(t: Seq<TokenView>)
    ensures
        parse_tokens(seq![]) == Err::<Seq<CmdView>, ParseError>(ParseError::EmptyCommand),
        parse_tokens(seq![TokenView::Pipe] + t) == Err::<Seq<CmdView>, ParseError>(
            ParseError::NoCommandBeforePipe,
        ),
        (forall|k: int| 0 <= k < t.len() ==> #[trigger] t[k] != TokenView::Pipe) && parse_tokens(t) is Ok ==> {
            &&& parse_tokens(t + seq![TokenView::Pipe]) == Err::<Seq<CmdView>, ParseError>(
                ParseError::NoCommandAfterPipe,
            )
            &&& parse_tokens(t + seq![TokenView::RedirectIn]) == Err::<Seq<CmdView>, ParseError>(
                ParseError::MissingInputFile,
            )
            &&& parse_tokens(t + seq![TokenView::RedirectOut]) == Err::<Seq<CmdView>, ParseError>(
                ParseError::MissingOutputFile,
            )
        },
{
    assert((seq![TokenView::Pipe] + t)[0] == TokenView::Pipe);
    if (forall|k: int| 0 <= k < t.len() ==> #[trigger] t[k] != TokenView::Pipe) && parse_tokens(t) is Ok {
        lemma_parse_cmds_end(t, TokenView::Pipe, empty_cmd(), true);
        lemma_parse_cmds_end(t, TokenView::RedirectIn, empty_cmd(), true);
        lemma_parse_cmds_end(t, TokenView::RedirectOut, empty_cmd(), true);
    }
}

} // verus!
