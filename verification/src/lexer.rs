//! Breaks a raw command line into tokens.
//!
//! Whitespace (space and tab) separates tokens; `|`, `<` and `>` are
//! operators wherever they stand outside quotes; a double- or single-quoted
//! string is one word whose contents are taken literally.
use vstd::prelude::*;

verus! {

/// One token of a command line.
#[derive(Debug, PartialEq, Clone)]
pub enum Token {
    /// A regular word or a quoted string.
    Word(String),
    /// `|`
    Pipe,
    /// `<`
    RedirectIn,
    /// `>`
    RedirectOut,
}

/// The mathematical model of a token.
pub enum TokenView {
    Word(Seq<char>),
    Pipe,
    RedirectIn,
    RedirectOut,
}

impl View for Token {
    type V = TokenView;

    open spec fn view(&self) -> TokenView {
        match self {
            Token::Word(w) => TokenView::Word(w@),
            Token::Pipe => TokenView::Pipe,
            Token::RedirectIn => TokenView::RedirectIn,
            Token::RedirectOut => TokenView::RedirectOut,
        }
    }
}

/// The model of a sequence of tokens.
pub open spec fn tokens_view(ts: Seq<Token>) -> Seq<TokenView> {
    ts.map_values(|t: Token| t@)
}

/// Why a command line could not be tokenized.
pub enum LexError {
    UnterminatedDoubleQuote,
    UnterminatedSingleQuote,
}

impl LexError {
    /// The message the tokenizer reports for this error.
    pub open spec fn message(self) -> Seq<char> {
        match self {
            LexError::UnterminatedDoubleQuote => "unterminated double quote"@,
            LexError::UnterminatedSingleQuote => "unterminated single quote"@,
        }
    }
}

/// Blank characters between tokens.
pub open spec fn is_blank(c: char) -> bool {
    c == ' ' || c == '\t'
}

/// Characters that end a bare (unquoted) word.
pub open spec fn ends_bare_word(c: char) -> bool {
    is_blank(c) || c == '|' || c == '<' || c == '>'
}

/// The length of the longest prefix of `s` without a character that ends a bare word.
pub open spec fn bare_len(s: Seq<char>) -> nat
    decreases s.len(),
{
    if s.len() == 0 || ends_bare_word(s[0]) {
        0
    } else {
        1 + bare_len(s.drop_first())
    }
}

/// The index of the first occurrence of `q` in `s`, if any.
pub open spec fn find_char(s: Seq<char>, q: char) -> Option<nat>
    decreases s.len(),
{
    if s.len() == 0 {
        None
    } else if s[0] == q {
        Some(0)
    } else {
        match find_char(s.drop_first(), q) {
            Some(j) => Some(j + 1),
            None => None,
        }
    }
}

/// Puts `t` in front of a successful result; an error stays as it is.
pub open spec fn cons_token(t: TokenView, r: Result<Seq<TokenView>, LexError>) -> Result<
    Seq<TokenView>,
    LexError,
> {
    match r {
        Ok(ts) => Ok(seq![t] + ts),
        Err(e) => Err(e),
    }
}

/// Puts `ts` in front of a successful result; an error stays as it is.
pub open spec fn prefix_tokens(ts: Seq<TokenView>, r: Result<Seq<TokenView>, LexError>) -> Result<
    Seq<TokenView>,
    LexError,
> {
    match r {
        Ok(rest) => Ok(ts + rest),
        Err(e) => Err(e),
    }
}

/// The tokens of the command line `s`, read from left to right.
pub open spec fn lex(s: Seq<char>) -> Result<Seq<TokenView>, LexError>
    decreases s.len(),
{
    if s.len() == 0 {
        Ok(seq![])
    } else {
        let c = s[0];
        let rest = s.drop_first();
        if is_blank(c) {
            lex(rest)
        } else if c == '|' {
            cons_token(TokenView::Pipe, lex(rest))
        } else if c == '<' {
            cons_token(TokenView::RedirectIn, lex(rest))
        } else if c == '>' {
            cons_token(TokenView::RedirectOut, lex(rest))
        } else if c == '"' || c == '\'' {
            match find_char(rest, c) {
                None => Err(
                    if c == '"' {
                        LexError::UnterminatedDoubleQuote
                    } else {
                        LexError::UnterminatedSingleQuote
                    },
                ),
                Some(j) => {
                    proof {
                        lemma_find_char_bound(rest, c);
                    }
                    cons_token(TokenView::Word(rest.take(j as int)), lex(rest.skip(j + 1 as int)))
                },
            }
        } else {
            let k = bare_len(s);
            proof {
                lemma_bare_len_bound(s);
            }
            cons_token(TokenView::Word(s.take(k as int)), lex(s.skip(k as int)))
        }
    }
}

/// A found character lies inside the sequence and is the character searched for,
/// and no earlier character is.
pub proof fn lemma_find_char_bound(s: Seq<char>, q: char)
    ensures
        find_char(s, q) matches Some(j) ==> {
            &&& j < s.len()
            &&& s[j as int] == q
            &&& forall|k: int| 0 <= k < j ==> s[k] != q
        },
        find_char(s, q) is None ==> forall|k: int| 0 <= k < s.len() ==> s[k] != q,
    decreases s.len(),
{
    if s.len() > 0 {
        lemma_find_char_bound(s.drop_first(), q);
        if s[0] != q {
            assert forall|k: int| 1 <= k < s.len() implies s[k] == s.drop_first()[k - 1] by {}
        }
    }
}

/// `find_char` is characterized by the position it returns.
proof fn lemma_find_char_at(s: Seq<char>, q: char, m: int)
    requires
        0 <= m <= s.len(),
        forall|k: int| 0 <= k < m ==> s[k] != q,
        m == s.len() || s[m] == q,
    ensures
        find_char(s, q) == (if m == s.len() {
            None::<nat>
        } else {
            Some(m as nat)
        }),
    decreases s.len(),
{
    if s.len() > 0 && m > 0 {
        lemma_find_char_at(s.drop_first(), q, m - 1);
    }
}

/// A bare word fits in the line, and is not empty where the line starts with a word character.
pub proof fn lemma_bare_len_bound(s: Seq<char>)
    ensures
        bare_len(s) <= s.len(),
        s.len() > 0 && !ends_bare_word(s[0]) ==> bare_len(s) >= 1,
        forall|k: int| 0 <= k < bare_len(s) ==> !ends_bare_word(#[trigger] s[k]),
        bare_len(s) < s.len() ==> ends_bare_word(s[bare_len(s) as int]),
    decreases s.len(),
{
    if s.len() > 0 && !ends_bare_word(s[0]) {
        lemma_bare_len_bound(s.drop_first());
        assert forall|k: int| 1 <= k < bare_len(s) implies !ends_bare_word(#[trigger] s[k]) by {
            assert(s[k] == s.drop_first()[k - 1]);
        }
    }
}

/// `bare_len` is characterized by the position where the bare word stops.
proof fn lemma_bare_len_at(s: Seq<char>, m: int)
    requires
        0 <= m <= s.len(),
        forall|k: int| 0 <= k < m ==> !ends_bare_word(s[k]),
        m == s.len() || ends_bare_word(s[m]),
    ensures
        bare_len(s) == m,
    decreases s.len(),
{
    if s.len() > 0 && m > 0 {
        lemma_bare_len_at(s.drop_first(), m - 1);
    }
}

/// Every character of `b` is a space or a tab.
pub open spec fn all_blank(b: Seq<char>) -> bool {
    forall|k: int| 0 <= k < b.len() ==> (#[trigger] b[k] == ' ' || b[k] == '\t')
}

/// Blanks in front of a line change nothing.
pub proof fn lemma_lex_leading_blanks(b: Seq<char>, s: Seq<char>)
    requires
        all_blank(b),
    ensures
        lex(b + s) == lex(s),
    decreases b.len(),
{
    if b.len() > 0 {
        assert((b + s).drop_first() == b.drop_first() + s);
        assert(b[0] == ' ' || b[0] == '\t');
        lemma_lex_leading_blanks(b.drop_first(), s);
    } else {
        assert(b + s == s);
    }
}

/// A search that succeeds in `s` finds the same place in any extension of `s`.
proof fn lemma_find_char_extend(s: Seq<char>, x: Seq<char>, q: char)
    requires
        find_char(s, q) is Some,
    ensures
        find_char(s + x, q) == find_char(s, q),
    decreases s.len(),
{
    if s[0] != q {
        assert((s + x).drop_first() == s.drop_first() + x);
        lemma_find_char_extend(s.drop_first(), x, q);
    }
}

/// Blanks separate tokens: where the line `s1` tokenizes, a run of blanks
/// between it and `s2` gives the tokens of `s1` followed by those of `s2`.
/// With `s1` empty, blanks in front change nothing; with `s2` empty, blanks at
/// the end change nothing; and the width of a gap of blanks never matters.
pub proof fn lemma_lex_blank_split(s1: Seq<char>, b: Seq<char>, s2: Seq<char>)
    requires
        lex(s1) is Ok,
        b.len() >= 1,
        all_blank(b),
    ensures
        lex(s1 + b + s2) == prefix_tokens(lex(s1)->Ok_0, lex(s2)),
    decreases s1.len(),
{
    let s = s1 + b + s2;
    if s1.len() == 0 {
        assert(s == b + s2);
        lemma_lex_leading_blanks(b, s2);
        match lex(s2) {
            Ok(ts) => {
                assert(Seq::<TokenView>::empty() + ts == ts);
            },
            Err(_) => {},
        }
    } else {
        let c = s1[0];
        let r1 = s1.drop_first();
        assert(s[0] == c);
        assert(s.drop_first() == r1 + b + s2);
        if is_blank(c) {
            lemma_lex_blank_split(r1, b, s2);
        } else if c == '|' || c == '<' || c == '>' {
            lemma_lex_blank_split(r1, b, s2);
            let t = if c == '|' {
                TokenView::Pipe
            } else if c == '<' {
                TokenView::RedirectIn
            } else {
                TokenView::RedirectOut
            };
            let ts1 = lex(r1)->Ok_0;
            assert(lex(s1) == Ok::<Seq<TokenView>, LexError>(seq![t] + ts1));
            match lex(s2) {
                Ok(ts) => {
                    assert(seq![t] + (ts1 + ts) == seq![t] + ts1 + ts);
                },
                Err(_) => {},
            }
        } else if c == '"' || c == '\'' {
            let j = find_char(r1, c)->Some_0;
            lemma_find_char_bound(r1, c);
            lemma_find_char_extend(r1, b + s2, c);
            assert(r1 + b + s2 == r1 + (b + s2));
            let rest = s.drop_first();
            assert(rest.take(j as int) == r1.take(j as int));
            assert(rest.skip(j + 1 as int) == r1.skip(j + 1 as int) + b + s2);
            lemma_lex_blank_split(r1.skip(j + 1 as int), b, s2);
            let ts1 = lex(r1.skip(j + 1 as int))->Ok_0;
            let w = TokenView::Word(r1.take(j as int));
            match lex(s2) {
                Ok(ts) => {
                    assert(seq![w] + (ts1 + ts) == seq![w] + ts1 + ts);
                },
                Err(_) => {},
            }
        } else {
            let k = bare_len(s1);
            lemma_bare_len_bound(s1);
            assert forall|i: int| 0 <= i < k implies !ends_bare_word(#[trigger] s[i]) by {
                assert(s[i] == s1[i]);
            }
            if k < s1.len() {
                assert(s[k as int] == s1[k as int]);
            } else {
                assert(s[k as int] == b[0]);
            }
            lemma_bare_len_at(s, k as int);
            assert(s.take(k as int) == s1.take(k as int));
            assert(s.skip(k as int) == s1.skip(k as int) + b + s2);
            lemma_lex_blank_split(s1.skip(k as int), b, s2);
            let ts1 = lex(s1.skip(k as int))->Ok_0;
            let w = TokenView::Word(s1.take(k as int));
            match lex(s2) {
                Ok(ts) => {
                    assert(seq![w] + (ts1 + ts) == seq![w] + ts1 + ts);
                },
                Err(_) => {},
            }
        }
    }
}

/// Quoting: a string between a pair of quotes, double or single, that holds
/// no such quote itself, is one word whose contents are taken literally,
/// blanks and operators included, whatever follows it.
pub proof fn lemma_lex_quoted(q: char, content: Seq<char>, s: Seq<char>)
    requires
        q == '"' || q == '\'',
        !content.contains(q),
    ensures
        lex(seq![q] + content + seq![q] + s) == cons_token(TokenView::Word(content), lex(s)),
{
    let line = seq![q] + content + seq![q] + s;
    let rest = line.drop_first();
    assert(rest == content + (seq![q] + s));
    assert forall|k: int| 0 <= k < content.len() implies rest[k] != q by {
        assert(rest[k] == content[k]);
    }
    assert(rest[content.len() as int] == q);
    lemma_find_char_at(rest, q, content.len() as int);
    assert(rest.take(content.len() as int) == content);
    assert(rest.skip(content.len() + 1 as int) == s);
}

/// A bare word ends only at a space, a tab, `|`, `<` or `>`: a run `w` of
/// other characters, not starting with a quote, followed by the end of the
/// line or by one of those characters, is one word, and the rest of the line
/// is read on its own.
pub proof fn lemma_lex_bare_word(w: Seq<char>, s: Seq<char>)
    requires
        w.len() >= 1,
        w[0] != '"' && w[0] != '\'',
        forall|k: int|
            0 <= k < w.len() ==> #[trigger] w[k] != ' ' && w[k] != '\t' && w[k] != '|' && w[k]
                != '<' && w[k] != '>',
        s.len() == 0 || s[0] == ' ' || s[0] == '\t' || s[0] == '|' || s[0] == '<' || s[0] == '>',
    ensures
        lex(w + s) == cons_token(TokenView::Word(w), lex(s)),
{
    let line = w + s;
    assert forall|k: int| 0 <= k < w.len() implies !ends_bare_word(#[trigger] line[k]) by {
        assert(line[k] == w[k]);
    }
    if s.len() > 0 {
        assert(line[w.len() as int] == s[0]);
    }
    lemma_bare_len_at(line, w.len() as int);
    assert(line[0] == w[0]);
    assert(line.take(w.len() as int) == w);
    assert(line.skip(w.len() as int) == s);
}

/// Blanks are skipped, and each of `|`, `<` and `>` is a token of its own
/// wherever it stands outside quotes.
pub proof fn lemma_lex_single_chars(s: Seq<char>)
    ensures
        lex(seq![' '] + s) == lex(s),
        lex(seq!['\t'] + s) == lex(s),
        lex(seq!['|'] + s) == cons_token(TokenView::Pipe, lex(s)),
        lex(seq!['<'] + s) == cons_token(TokenView::RedirectIn, lex(s)),
        lex(seq!['>'] + s) == cons_token(TokenView::RedirectOut, lex(s)),
{
    assert((seq![' '] + s).drop_first() == s);
    assert((seq!['\t'] + s).drop_first() == s);
    assert((seq!['|'] + s).drop_first() == s);
    assert((seq!['<'] + s).drop_first() == s);
    assert((seq!['>'] + s).drop_first() == s);
}

/// A quote that is never closed is an error, named by the kind of quote.
pub proof fn lemma_lex_unterminated(q: char, content: Seq<char>)
    requires
        q == '"' || q == '\'',
        !content.contains(q),
    ensures
        lex(seq![q] + content) == Err::<Seq<TokenView>, LexError>(
            if q == '"' {
                LexError::UnterminatedDoubleQuote
            } else {
                LexError::UnterminatedSingleQuote
            },
        ),
{
    let line = seq![q] + content;
    assert(line.drop_first() == content);
    assert forall|k: int| 0 <= k < content.len() implies content[k] != q by {
        if content[k] == q {
            assert(content.contains(q));
        }
    }
    lemma_find_char_at(content, q, content.len() as int);
}

/// Appends `c` to `s`.
///
/// Trusted: calls `String::push` of std, which appends one character to the
/// string; the contract claims just that, over the character view.
#[verifier::external_body]
fn push_char(s: &mut String, c: char)
    ensures
        final(s)@ == old(s)@.push(c),
{
    s.push(c);
}

/// The characters of `s`, in order.
pub(crate) fn chars_of(s: &str) -> (v: Vec<char>)
    ensures
        v@ == s@,
{
    let mut v: Vec<char> = Vec::new();
    for c in it: s.chars()
        invariant
            v@ == it.seq().take(it.index() as int),
    {
        v.push(c);
    }
    v
}

/// Breaks a command line into tokens.
///
/// Returns the tokens of `input` as `lex` reads them, or the message of the
/// first unterminated quote.
pub fn tokenize(input: &str) -> (res: Result<Vec<Token>, String>)
    ensures
        match lex(input@) {
            Ok(ts) => res matches Ok(v) && tokens_view(v@) == ts,
            Err(e) => res matches Err(m) && m@ == e.message(),
        },
{
    let chars = chars_of(input);
    let n = chars.len();
    let mut tokens: Vec<Token> = Vec::new();
    let mut i: usize = 0;
    proof {
        assert(chars@.skip(0) == chars@);
        match lex(chars@) {
            Ok(rest) => {
                assert(tokens_view(tokens@) + rest == rest);
            },
            Err(_) => {},
        }
    }
    while i < n
        invariant
            chars@ == input@,
            n == chars@.len(),
            i <= n,
            lex(input@) == prefix_tokens(tokens_view(tokens@), lex(chars@.skip(i as int))),
        decreases n - i,
    {
        let ghost s = chars@.skip(i as int);
        let ghost old_tokens = tokens_view(tokens@);
        assert(s[0] == chars@[i as int]);
        assert(s.drop_first() == chars@.skip(i + 1));
        let ch = chars[i];
        if ch == ' ' || ch == '\t' {
            i = i + 1;
        } else if ch == '|' || ch == '<' || ch == '>' {
            let t = if ch == '|' {
                Token::Pipe
            } else if ch == '<' {
                Token::RedirectIn
            } else {
                Token::RedirectOut
            };
            tokens.push(t);
            i = i + 1;
            assert(tokens_view(tokens@) == old_tokens + seq![t@]);
            proof {
                match lex(chars@.skip(i as int)) {
                    Ok(rest) => {
                        assert(old_tokens + (seq![t@] + rest) == old_tokens + seq![t@] + rest);
                    },
                    Err(_) => {},
                }
            }
        } else if ch == '"' || ch == '\'' {
            let start = i + 1;
            let mut j = start;
            let mut word = String::new();
            while j < n && chars[j] != ch
                invariant
                    chars@ == input@,
                    n == chars@.len(),
                    start <= j <= n,
                    word@ == chars@.subrange(start as int, j as int),
                    forall|k: int| start <= k < j ==> chars@[k] != ch,
                decreases n - j,
            {
                push_char(&mut word, chars[j]);
                j = j + 1;
                assert(word@ == chars@.subrange(start as int, j as int));
            }
            let ghost body = s.drop_first();
            proof {
                assert(body == chars@.skip(start as int));
                lemma_find_char_at(body, ch, j - start);
            }
            if j == n {
                let msg = if ch == '"' {
                    "unterminated double quote"
                } else {
                    "unterminated single quote"
                };
                return Err(msg.to_owned());
            }
            let t = Token::Word(word);
            tokens.push(t);
            i = j + 1;
            proof {
                assert(body.take(j - start) == chars@.subrange(start as int, j as int));
                assert(body.skip(j - start + 1) == chars@.skip(i as int));
                assert(tokens_view(tokens@) == old_tokens + seq![t@]);
                match lex(chars@.skip(i as int)) {
                    Ok(rest) => {
                        assert(old_tokens + (seq![t@] + rest) == old_tokens + seq![t@] + rest);
                    },
                    Err(_) => {},
                }
            }
        } else {
            let mut j = i;
            let mut word = String::new();
            while j < n && !(chars[j] == ' ' || chars[j] == '\t' || chars[j] == '|' || chars[j]
                == '<' || chars[j] == '>')
                invariant
                    chars@ == input@,
                    n == chars@.len(),
                    i <= j <= n,
                    word@ == chars@.subrange(i as int, j as int),
                    forall|k: int| i <= k < j ==> !ends_bare_word(#[trigger] chars@[k]),
                decreases n - j,
            {
                push_char(&mut word, chars[j]);
                j = j + 1;
                assert(word@ == chars@.subrange(i as int, j as int));
            }
            proof {
                lemma_bare_len_at(s, j - i);
                assert(s.take(j - i) == chars@.subrange(i as int, j as int));
                assert(s.skip(j - i) == chars@.skip(j as int));
            }
            let t = Token::Word(word);
            tokens.push(t);
            i = j;
            proof {
                assert(tokens_view(tokens@) == old_tokens + seq![t@]);
                match lex(chars@.skip(i as int)) {
                    Ok(rest) => {
                        assert(old_tokens + (seq![t@] + rest) == old_tokens + seq![t@] + rest);
                    },
                    Err(_) => {},
                }
            }
        }
    }
    proof {
        assert(chars@.skip(n as int) == Seq::<char>::empty());
        assert(tokens_view(tokens@) + Seq::<TokenView>::empty() == tokens_view(tokens@));
    }
    Ok(tokens)
}

} // verus!
