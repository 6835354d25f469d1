//! Tokens of the experimental higher-level surface language, with the
//! source positions a diagnostic needs.

use vstd::prelude::*;
use vstd::string::StrSliceExecFns;
use core::ops::Range;
use crate::utils::collect_chars;

verus! {

#[derive(Debug, PartialEq, Clone)]
pub enum Token {
    // Operators
    Assign,
    Greater,
    Less,
    // Brackets
    SquareOpen,
    SquareClose,
    RoundOpen,
    RoundClose,
    CurlyOpen,
    CurlyClose,
    // Separators
    Semicolon,
    // Keywords
    True,
    False,
    If,
    Else,
    // Iterators
    For,
    In,
    DoubleDot,
    Not,
    // Literals
    Integer(u8),
    Char(u8),
    StringLit(String),
    // Identifiers; arithmetic operators are also identifiers, because
    // the surface language treats them as functions.
    Identifier(String),
}

impl Token {
    /// Whether the token is a literal value.
    pub fn is_literal(&self) -> (r: bool)
        ensures
            r == match *self {
                Token::Char(_) => true,
                Token::False => true,
                Token::True => true,
                Token::StringLit(_) => true,
                Token::Integer(_) => true,
                _ => false,
            },
    {
        match self {
            Token::Char(_) | Token::False | Token::True | Token::StringLit(_)
                | Token::Integer(_) => true,
            _ => false,
        }
    }

    /// Whether the token is an identifier.
    pub fn is_identifier(&self) -> (r: bool)
        ensures
            r == (*self is Identifier),
    {
        match self {
            Token::Identifier(_) => true,
            _ => false,
        }
    }

    /// The text an identifier or string token carries.
    pub fn inner_string(&self) -> (r: Option<String>)
        ensures
            match *self {
                Token::Identifier(x) => r matches Some(v) && v@ == x@,
                Token::StringLit(x) => r matches Some(v) && v@ == x@,
                _ => r is None,
            },
    {
        match self {
            Token::Identifier(x) => Some(x.clone()),
            Token::StringLit(x) => Some(x.clone()),
            _ => None,
        }
    }
}

/// A token with the source position it was read from.
#[derive(Debug, PartialEq)]
pub struct IndexedToken {
    pub token: Token,
    pub range: Range<usize>,
    pub line: String,
    pub line_number: usize,
    pub chars_before: usize,
}

impl IndexedToken {
    /// A token with no source position, as used for synthesized input.
    pub fn new_hidden(token: Token) -> (r: Self)
        ensures
            r.token == token,
            r.range.start == 0 && r.range.end == 0,
            r.line@ == Seq::<char>::empty(),
            r.line_number == 0,
            r.chars_before == 0,
    {
        IndexedToken {
            token,
            range: 0..0,
            line: String::new(),
            line_number: 0,
            chars_before: 0,
        }
    }
}

/// A token as the lexical grammar sees it: payloads as plain values.
pub enum TokenView {
    Assign,
    Greater,
    Less,
    SquareOpen,
    SquareClose,
    RoundOpen,
    RoundClose,
    CurlyOpen,
    CurlyClose,
    Semicolon,
    True,
    False,
    If,
    Else,
    For,
    In,
    DoubleDot,
    Not,
    Integer(u8),
    Chr(u8),
    StringLit(Seq<char>),
    Identifier(Seq<char>),
}

/// What a token value says, at the lexical grammar's level.
pub open spec fn token_view(t: Token) -> TokenView {
    match t {
        Token::Assign => TokenView::Assign,
        Token::Greater => TokenView::Greater,
        Token::Less => TokenView::Less,
        Token::SquareOpen => TokenView::SquareOpen,
        Token::SquareClose => TokenView::SquareClose,
        Token::RoundOpen => TokenView::RoundOpen,
        Token::RoundClose => TokenView::RoundClose,
        Token::CurlyOpen => TokenView::CurlyOpen,
        Token::CurlyClose => TokenView::CurlyClose,
        Token::Semicolon => TokenView::Semicolon,
        Token::True => TokenView::True,
        Token::False => TokenView::False,
        Token::If => TokenView::If,
        Token::Else => TokenView::Else,
        Token::For => TokenView::For,
        Token::In => TokenView::In,
        Token::DoubleDot => TokenView::DoubleDot,
        Token::Not => TokenView::Not,
        Token::Integer(n) => TokenView::Integer(n),
        Token::Char(n) => TokenView::Chr(n),
        Token::StringLit(x) => TokenView::StringLit(x@),
        Token::Identifier(x) => TokenView::Identifier(x@),
    }
}

/// Lexical whitespace.
pub open spec fn lex_is_ws(c: char) -> bool {
    c == ' ' || c == '\t' || c == '\n' || c == '\u{c}'
}

/// Characters that may continue a surface-language word: letters,
/// digits and underscore.
pub open spec fn lex_word_char(c: char) -> bool {
    let u = c as u32;
    (65 <= u && u <= 90) || (97 <= u && u <= 122) || (48 <= u && u <= 57) || u == 95
}

/// The end of a `//` comment: the next newline or the end of text.
pub open spec fn line_comment_end(s: Seq<char>, i: int) -> int
    decreases s.len() - i,
{
    if i < 0 || i >= s.len() || s[i] == '\n' {
        i
    } else {
        line_comment_end(s, i + 1)
    }
}

/// The position just past the closing `*/` of a block comment, or the
/// end of text when it never closes.
pub open spec fn block_comment_end(s: Seq<char>, i: int) -> int
    decreases s.len() - i,
{
    if i < 0 || i + 1 >= s.len() {
        s.len() as int
    } else if s[i] == '*' && s[i + 1] == '/' {
        i + 2
    } else {
        block_comment_end(s, i + 1)
    }
}

/// The first position at or after `i` holding neither whitespace nor
/// a comment. An unterminated block comment swallows the rest.
pub open spec fn lex_ws_end(s: Seq<char>, i: int) -> int
    decreases s.len() - i,
{
    if i < 0 || i >= s.len() {
        i
    } else if lex_is_ws(s[i]) {
        lex_ws_end(s, i + 1)
    } else if s[i] == '/' && i + 1 < s.len() && s[i + 1] == '/' {
        let ce = line_comment_end(s, i + 2);
        if i < ce <= s.len() {
            lex_ws_end(s, ce)
        } else {
            i
        }
    } else if s[i] == '/' && i + 1 < s.len() && s[i + 1] == '*' {
        let ce = block_comment_end(s, i + 2);
        if i < ce <= s.len() {
            lex_ws_end(s, ce)
        } else {
            i
        }
    } else {
        i
    }
}

/// The end of the word at `i`.
pub open spec fn lex_word_end(s: Seq<char>, i: int) -> int
    decreases s.len() - i,
{
    if i < 0 || i >= s.len() || !lex_word_char(s[i]) {
        i
    } else {
        lex_word_end(s, i + 1)
    }
}

/// The value of the digit run `s[i..j)`, clamped once it cannot be a
/// byte any more.
pub open spec fn lex_digits_val(s: Seq<char>, i: int, j: int) -> int
    decreases j - i,
{
    if j <= i {
        0
    } else {
        let prev = lex_digits_val(s, i, j - 1);
        if prev > 255 {
            256
        } else {
            prev * 10 + (s[j - 1] as u32 - 48)
        }
    }
}

/// The word token at `i..e`: a keyword where it is one, an identifier
/// otherwise.
pub open spec fn word_token(w: Seq<char>) -> TokenView {
    if w == seq!['t', 'r', 'u', 'e'] {
        TokenView::True
    } else if w == seq!['f', 'a', 'l', 's', 'e'] {
        TokenView::False
    } else if w == seq!['i', 'f'] {
        TokenView::If
    } else if w == seq!['e', 'l', 's', 'e'] {
        TokenView::Else
    } else if w == seq!['f', 'o', 'r'] {
        TokenView::For
    } else if w == seq!['i', 'n'] {
        TokenView::In
    } else {
        TokenView::Identifier(w)
    }
}

/// One token read at a position that sits on it, or nothing where the
/// text does not lex.
pub open spec fn lex_one(s: Seq<char>, i: int) -> Option<(TokenView, int)> {
    let c = s[i];
    if c == '=' {
        Some((TokenView::Assign, i + 1))
    } else if c == '>' {
        Some((TokenView::Greater, i + 1))
    } else if c == '<' {
        Some((TokenView::Less, i + 1))
    } else if c == '[' {
        Some((TokenView::SquareOpen, i + 1))
    } else if c == ']' {
        Some((TokenView::SquareClose, i + 1))
    } else if c == '(' {
        Some((TokenView::RoundOpen, i + 1))
    } else if c == ')' {
        Some((TokenView::RoundClose, i + 1))
    } else if c == '{' {
        Some((TokenView::CurlyOpen, i + 1))
    } else if c == '}' {
        Some((TokenView::CurlyClose, i + 1))
    } else if c == ';' {
        Some((TokenView::Semicolon, i + 1))
    } else if c == '!' {
        Some((TokenView::Not, i + 1))
    } else if c == '.' {
        if i + 1 < s.len() && s[i + 1] == '.' {
            Some((TokenView::DoubleDot, i + 2))
        } else {
            None
        }
    } else if c == '+' || c == '-' || c == '*' || c == '/' || c == '%' {
        // Arithmetic operators are identifiers: the surface language
        // treats them as function names.
        Some((TokenView::Identifier(seq![c]), i + 1))
    } else if 48 <= c as u32 && c as u32 <= 57 {
        let e = lex_word_end(s, i);
        let v = lex_digits_val(s, i, e);
        if v <= 255 && (forall|k: int| i <= k < e ==> 48 <= (#[trigger] s[k]) as u32
            && s[k] as u32 <= 57) {
            Some((TokenView::Integer(v as u8), e))
        } else {
            None
        }
    } else if c == '\'' {
        if i + 2 < s.len() && s[i + 2] == '\'' && s[i + 1] != '\'' {
            Some((TokenView::Chr(((s[i + 1] as u32) % 256) as u8), i + 3))
        } else if i + 3 < s.len() && s[i + 1] == '\\' && (s[i + 2] == 'n' || s[i + 2] == 'd')
            && s[i + 3] == '\'' {
            Some((TokenView::Chr(92), i + 4))
        } else {
            None
        }
    } else if c == '"' {
        let e = lex_quote_end(s, i + 1);
        if e < s.len() {
            Some((TokenView::StringLit(s.subrange(i + 1, e)), e + 1))
        } else {
            None
        }
    } else if lex_word_char(c) && !(48 <= c as u32 && c as u32 <= 57) {
        let e = lex_word_end(s, i);
        Some((word_token(s.subrange(i, e)), e))
    } else {
        None
    }
}

/// The position of the closing quote at or after `i`.
pub open spec fn lex_quote_end(s: Seq<char>, i: int) -> int
    decreases s.len() - i,
{
    if i < 0 || i >= s.len() {
        i
    } else if s[i] == '"' {
        i
    } else {
        lex_quote_end(s, i + 1)
    }
}

/// The whole text as tokens, or nothing where any of it does not lex.
pub open spec fn lex_all(s: Seq<char>, i: int) -> Option<Seq<TokenView>>
    decreases s.len() - i,
{
    if i < 0 {
        None
    } else {
        let w = lex_ws_end(s, i);
        if w >= s.len() || w < i {
            if w >= s.len() {
                Some(Seq::empty())
            } else {
                None
            }
        } else {
            match lex_one(s, w) {
                Some((t, j)) => if i < j <= s.len() {
                    match lex_all(s, j) {
                        Some(rest) => Some(seq![t] + rest),
                        None => None,
                    }
                } else {
                    None
                },
                None => None,
            }
        }
    }
}

/// Skip whitespace and comments, mirroring `lex_ws_end`.
fn lex_skip_ws(chars: &Vec<char>, i: usize) -> (r: usize)
    requires
        i <= chars@.len(),
    ensures
        r as int == lex_ws_end(chars@, i as int),
        i <= r <= chars@.len(),
{
    let ghost s = chars@;
    let n = chars.len();
    let mut cur = i;
    loop
        invariant
            i <= cur <= n,
            n == s.len(),
            chars@ == s,
            lex_ws_end(s, i as int) == lex_ws_end(s, cur as int),
        ensures
            cur as int == lex_ws_end(s, i as int),
            i <= cur <= n,
        decreases n - cur,
    {
        if cur >= n {
            break;
        }
        let c = chars[cur];
        if c == ' ' || c == '\t' || c == '\n' || c == '\u{c}' {
            cur = cur + 1;
        } else if c == '/' && cur + 1 < n && chars[cur + 1] == '/' {
            let mut ce = cur + 2;
            while ce < n && chars[ce] != '\n'
                invariant
                    cur + 2 <= ce <= n,
                    n == s.len(),
                    chars@ == s,
                    line_comment_end(s, cur + 2) == line_comment_end(s, ce as int),
                decreases n - ce,
            {
                ce = ce + 1;
            }
            proof {
                assert(line_comment_end(s, ce as int) == ce);
                assert(lex_ws_end(s, cur as int) == lex_ws_end(s, ce as int));
            }
            cur = ce;
        } else if c == '/' && cur + 1 < n && chars[cur + 1] == '*' {
            let mut ce = cur + 2;
            while n - ce > 1 && !(chars[ce] == '*' && chars[ce + 1] == '/')
                invariant
                    cur + 2 <= ce <= n,
                    n == s.len(),
                    chars@ == s,
                    block_comment_end(s, cur + 2) == block_comment_end(s, ce as int),
                decreases n - ce,
            {
                ce = ce + 1;
            }
            let close = if n - ce > 1 {
                ce + 2
            } else {
                n
            };
            proof {
                assert(block_comment_end(s, ce as int) == close);
                assert(lex_ws_end(s, cur as int) == lex_ws_end(s, close as int));
            }
            cur = close;
        } else {
            break;
        }
    }
    cur
}

/// The end of the word at `i`, mirroring `lex_word_end`.
fn lex_scan_word(chars: &Vec<char>, i: usize) -> (r: usize)
    requires
        i <= chars@.len(),
    ensures
        r as int == lex_word_end(chars@, i as int),
        i <= r <= chars@.len(),
{
    let ghost s = chars@;
    let n = chars.len();
    let mut cur = i;
    loop
        invariant
            i <= cur <= n,
            n == s.len(),
            chars@ == s,
            lex_word_end(s, i as int) == lex_word_end(s, cur as int),
        ensures
            cur as int == lex_word_end(s, i as int),
            i <= cur <= n,
        decreases n - cur,
    {
        if cur >= n {
            break;
        }
        let u = chars[cur] as u32;
        if (65 <= u && u <= 90) || (97 <= u && u <= 122) || (48 <= u && u <= 57) || u == 95 {
            cur = cur + 1;
        } else {
            break;
        }
    }
    cur
}

/// Read one token at a position that sits on it, mirroring `lex_one`.
#[verifier::rlimit(100)]
fn lex_read_one(chars: &Vec<char>, src: &str, i: usize) -> (r: Option<(Token, usize)>)
    requires
        chars@ == src@,
        i < chars@.len(),
    ensures
        match lex_one(chars@, i as int) {
            Some((v, j)) => r matches Some(rp) && token_view(rp.0) == v && rp.1 == j && rp.1
                <= chars@.len(),
            None => r is None,
        },
{
    proof {
        reveal_strlit("true");
        reveal_strlit("false");
        reveal_strlit("if");
        reveal_strlit("else");
        reveal_strlit("for");
        reveal_strlit("in");
        reveal_strlit("+");
        reveal_strlit("-");
        reveal_strlit("*");
        reveal_strlit("/");
        reveal_strlit("%");
        assert("true"@ =~= seq!['t', 'r', 'u', 'e']);
        assert("false"@ =~= seq!['f', 'a', 'l', 's', 'e']);
        assert("if"@ =~= seq!['i', 'f']);
        assert("else"@ =~= seq!['e', 'l', 's', 'e']);
        assert("for"@ =~= seq!['f', 'o', 'r']);
        assert("in"@ =~= seq!['i', 'n']);
        assert("+"@ =~= seq!['+']);
        assert("-"@ =~= seq!['-']);
        assert("*"@ =~= seq!['*']);
        assert("/"@ =~= seq!['/']);
        assert("%"@ =~= seq!['%']);
    }
    let ghost s = chars@;
    let n = chars.len();
    let c = chars[i];
    if c == '=' {
        Some((Token::Assign, i + 1))
    } else if c == '>' {
        Some((Token::Greater, i + 1))
    } else if c == '<' {
        Some((Token::Less, i + 1))
    } else if c == '[' {
        Some((Token::SquareOpen, i + 1))
    } else if c == ']' {
        Some((Token::SquareClose, i + 1))
    } else if c == '(' {
        Some((Token::RoundOpen, i + 1))
    } else if c == ')' {
        Some((Token::RoundClose, i + 1))
    } else if c == '{' {
        Some((Token::CurlyOpen, i + 1))
    } else if c == '}' {
        Some((Token::CurlyClose, i + 1))
    } else if c == ';' {
        Some((Token::Semicolon, i + 1))
    } else if c == '!' {
        Some((Token::Not, i + 1))
    } else if c == '.' {
        if n - i > 1 && chars[i + 1] == '.' {
            Some((Token::DoubleDot, i + 2))
        } else {
            None
        }
    } else if c == '+' || c == '-' || c == '*' || c == '/' || c == '%' {
        let op = if c == '+' {
            "+"
        } else if c == '-' {
            "-"
        } else if c == '*' {
            "*"
        } else if c == '/' {
            "/"
        } else {
            "%"
        };
        let t = Token::Identifier(op.to_owned());
        proof {
            assert(token_view(t) == TokenView::Identifier(seq![c]));
        }
        Some((t, i + 1))
    } else if {
        let u = c as u32;
        48 <= u && u <= 57
    } {
        let e = lex_scan_word(chars, i);
        proof {
            assert(lex_word_char(s[i as int]));
            assert(lex_word_end(s, i as int) == lex_word_end(s, i as int + 1));
            lemma_lex_word_end_ge(s, i as int + 1);
        }
        let mut acc: u32 = 0;
        let mut k = i;
        while k < e
            invariant
                i <= k <= e <= n,
                i < n,
                n == s.len(),
                chars@ == s,
                48 <= s[i as int] as u32 <= 57,
                e as int == lex_word_end(s, i as int),
                acc as int == lex_digits_val(s, i as int, k as int),
                acc <= 2560,
                forall|t: int| i <= t < k ==> 48 <= (#[trigger] s[t]) as u32 && s[t] as u32
                    <= 57,
            decreases e - k,
        {
            let u = chars[k] as u32;
            if !(48 <= u && u <= 57) {
                return None;
            }
            if acc > 255 {
                acc = 256;
            } else {
                acc = acc * 10 + (u - 48);
            }
            k = k + 1;
        }
        if acc <= 255 {
            Some((Token::Integer(acc as u8), e))
        } else {
            None
        }
    } else if c == '\'' {
        if n - i > 2 && chars[i + 2] == '\'' && chars[i + 1] != '\'' {
            let u = chars[i + 1] as u32;
            Some((Token::Char((u % 256) as u8), i + 3))
        } else if n - i > 3 && chars[i + 1] == '\\' && (chars[i + 2] == 'n' || chars[i + 2]
            == 'd') && chars[i + 3] == '\'' {
            Some((Token::Char(92), i + 4))
        } else {
            None
        }
    } else if c == '"' {
        let mut e = i + 1;
        while e < n && chars[e] != '"'
            invariant
                i + 1 <= e <= n,
                n == s.len(),
                chars@ == s,
                lex_quote_end(s, i + 1) == lex_quote_end(s, e as int),
            decreases n - e,
        {
            e = e + 1;
        }
        proof {
            assert(lex_quote_end(s, e as int) == e);
        }
        if e < n {
            let piece = src.substring_char(i + 1, e);
            Some((Token::StringLit(piece.to_owned()), e + 1))
        } else {
            None
        }
    } else if {
        let u = c as u32;
        (65 <= u && u <= 90) || (97 <= u && u <= 122) || u == 95
    } {
        let e = lex_scan_word(chars, i);
        proof {
            assert(lex_word_char(s[i as int]));
            assert(lex_word_end(s, i as int) == lex_word_end(s, i as int + 1));
            lemma_lex_word_end_ge(s, i as int + 1);
        }
        let t = if crate::parser::word_is(chars, i, e, "true") {
            Token::True
        } else if crate::parser::word_is(chars, i, e, "false") {
            Token::False
        } else if crate::parser::word_is(chars, i, e, "if") {
            Token::If
        } else if crate::parser::word_is(chars, i, e, "else") {
            Token::Else
        } else if crate::parser::word_is(chars, i, e, "for") {
            Token::For
        } else if crate::parser::word_is(chars, i, e, "in") {
            Token::In
        } else {
            Token::Identifier(src.substring_char(i, e).to_owned())
        };
        Some((t, e))
    } else {
        None
    }
}

/// The word scan never moves left.
proof fn lemma_lex_word_end_ge(s: Seq<char>, i: int)
    ensures
        lex_word_end(s, i) >= i,
    decreases s.len() - i,
{
    if 0 <= i < s.len() && lex_word_char(s[i]) {
        lemma_lex_word_end_ge(s, i + 1);
    }
}

/// Lex surface-language text into tokens. The text must lex: the
/// contract demands that the lexical grammar `lex_all` accepts it,
/// and the result is then exactly the tokens the grammar denotes.
pub fn tokenize(input: &str) -> (r: Vec<Token>)
    requires
        lex_all(input@, 0) is Some,
    ensures
        r@.map_values(|t: Token| token_view(t)) == lex_all(input@, 0)->Some_0,
{
    let chars = collect_chars(input);
    let ghost s = input@;
    let n = chars.len();
    let mut out: Vec<Token> = Vec::new();
    let mut i: usize = 0;
    proof {
        match lex_all(s, 0) {
            Some(views) => {
                assert(out@.map_values(|t: Token| token_view(t)) + views =~= views);
            }
            None => {}
        }
    }
    loop
        invariant_except_break
            lex_all(s, 0) is Some,
            match lex_all(s, i as int) {
                Some(rest) => lex_all(s, 0) == Some::<Seq<TokenView>>(
                    out@.map_values(|t: Token| token_view(t)) + rest,
                ),
                None => lex_all(s, 0) is None,
            },
        invariant
            i <= n,
            n == s.len(),
            chars@ == s,
            input@ == s,
        ensures
            lex_all(s, 0) == Some::<Seq<TokenView>>(out@.map_values(|t: Token| token_view(t))),
        decreases n - i,
    {
        let w = lex_skip_ws(&chars, i);
        if w >= n {
            proof {
                assert(lex_all(s, i as int) == Some::<Seq<TokenView>>(Seq::empty()));
                assert(out@.map_values(|t: Token| token_view(t)) + Seq::<TokenView>::empty()
                    =~= out@.map_values(|t: Token| token_view(t)));
            }
            break;
        }
        let step = match lex_read_one(&chars, input, w) {
            Some(x) => x,
            None => {
                proof {
                    assert(lex_all(s, i as int) is None);
                    assert(false);
                }
                unreached()
            }
        };
        let j = step.1;
        if !(i < j && j <= n) {
            proof {
                assert(lex_all(s, i as int) is None);
                assert(false);
            }
            unreached()
        }
        let ghost pre = out@.map_values(|t: Token| token_view(t));
        let ghost v = token_view(step.0);
        out.push(step.0);
        proof {
            assert(lex_all(s, i as int) == (match lex_all(s, j as int) {
                Some(rest) => Some::<Seq<TokenView>>(seq![v] + rest),
                None => None,
            })) by {
                reveal_with_fuel(lex_all, 2);
            }
            assert(out@.map_values(|t: Token| token_view(t)) =~= pre.push(v));
            match lex_all(s, j as int) {
                Some(rest) => {
                    assert(pre + (seq![v] + rest) =~= pre.push(v) + rest);
                }
                None => {}
            }
        }
        i = j;
    }
    out
}

} // verus!
