//! The LIR surface syntax: a whitespace- and comment-insensitive,
//! keyword-led grammar that produces an instruction list.
//!
//! Every instruction is a keyword followed by its operands: identifiers
//! (a letter, then letters, digits, `_` or `-`), integers `0..255`,
//! character literals with `\n`, `\t`, `\r` and `\\` escapes, string
//! literals kept raw, and, for `match`, a bracketed key list with
//! optional commas. `//` starts a comment that runs to the end of the
//! line. The parser's contract equates it with the spec-level grammar
//! `parse_all_spec`.

use vstd::prelude::*;
use vstd::string::StrSliceExecFns;
use vstd::string::StringExecFns;
use crate::instruction::Instruction;
use crate::utils::collect_chars;

verus! {

/// A parse failure, naming the offending text.
#[derive(Debug, Clone, PartialEq)]
pub enum ParseError {
    /// No instruction could be read at this point; the payload is the
    /// text from the offending token onward, truncated.
    InvalidInstruction(String),
}

/// An instruction as the grammar sees it: operands as plain values.
pub enum InstrView {
    Copy(Seq<char>, Seq<char>),
    Assign(Seq<char>, u8),
    Inc(Seq<char>),
    Dec(Seq<char>),
    IncBy(Seq<char>, u8),
    DecBy(Seq<char>, u8),
    Read(Seq<char>),
    Print(Seq<char>),
    PrintMsg(Seq<char>),
    PrintC(Seq<char>),
    Add(Seq<char>, Seq<char>),
    Sub(Seq<char>, Seq<char>),
    Mul(Seq<char>, Seq<char>),
    Div(Seq<char>, Seq<char>, Seq<char>, Seq<char>),
    IfEqual(Seq<char>, Seq<char>),
    IfEqualConst(Seq<char>, u8),
    IfNotEqualConst(Seq<char>, u8),
    IfNotEqual(Seq<char>, Seq<char>),
    UntilEqual(Seq<char>, Seq<char>),
    WhileNotZero(Seq<char>),
    End,
    Compare(Seq<char>, Seq<char>, Seq<char>),
    Push(Seq<char>),
    Pop(Seq<char>),
    Match(Seq<char>, Seq<u8>),
    Case,
    Raw(Seq<char>),
}

/// What an instruction value says, at the grammar's level.
pub open spec fn instr_view(i: Instruction) -> InstrView {
    match i {
        Instruction::Copy { a, b } => InstrView::Copy(a@, b@),
        Instruction::Assign(a, k) => InstrView::Assign(a@, k),
        Instruction::Inc(a) => InstrView::Inc(a@),
        Instruction::Dec(a) => InstrView::Dec(a@),
        Instruction::IncBy(a, k) => InstrView::IncBy(a@, k),
        Instruction::DecBy(a, k) => InstrView::DecBy(a@, k),
        Instruction::Read(a) => InstrView::Read(a@),
        Instruction::Print(a) => InstrView::Print(a@),
        Instruction::PrintMsg(m) => InstrView::PrintMsg(m@),
        Instruction::PrintC(a) => InstrView::PrintC(a@),
        Instruction::Add { a, b } => InstrView::Add(a@, b@),
        Instruction::Sub { a, b } => InstrView::Sub(a@, b@),
        Instruction::Mul { a, b } => InstrView::Mul(a@, b@),
        Instruction::Div { a, b, quotient, remainder } => InstrView::Div(
            a@,
            b@,
            remainder@,
            quotient@,
        ),
        Instruction::IfEqual { a, b } => InstrView::IfEqual(a@, b@),
        Instruction::IfEqualConst { a, b } => InstrView::IfEqualConst(a@, b),
        Instruction::IfNotEqualConst { a, b } => InstrView::IfNotEqualConst(a@, b),
        Instruction::IfNotEqual { a, b } => InstrView::IfNotEqual(a@, b@),
        Instruction::UntilEqual { a, b } => InstrView::UntilEqual(a@, b@),
        Instruction::WhileNotZero(a) => InstrView::WhileNotZero(a@),
        Instruction::End => InstrView::End,
        Instruction::Compare { a, b, res } => InstrView::Compare(a@, b@, res@),
        Instruction::Push(a) => InstrView::Push(a@),
        Instruction::Pop(a) => InstrView::Pop(a@),
        Instruction::Match(a, keys) => InstrView::Match(a@, keys@),
        Instruction::Case() => InstrView::Case,
        Instruction::Raw(s) => InstrView::Raw(s@),
    }
}

/// Whitespace between tokens.
pub open spec fn is_ws(c: char) -> bool {
    c == ' ' || c == '\t' || c == '\r' || c == '\n'
}

/// Characters that may continue a word: letters, digits, `_`, `-`.
pub open spec fn is_word_char(c: char) -> bool {
    crate::analysis::is_name_char(c)
}

/// A decimal digit's value, or 10 for other characters.
pub open spec fn digit_of(c: char) -> int {
    let u = c as u32;
    if 48 <= u && u <= 57 {
        u - 48
    } else {
        10
    }
}

/// The end of the comment starting at `i`: the next newline, or the
/// end of the text.
pub open spec fn comment_end(s: Seq<char>, i: int) -> int
    decreases s.len() - i,
{
    if i < 0 || i >= s.len() || s[i] == '\n' {
        i
    } else {
        comment_end(s, i + 1)
    }
}

/// The first position at or after `i` that holds neither whitespace
/// nor a `//` comment.
pub open spec fn ws_end(s: Seq<char>, i: int) -> int
    decreases s.len() - i, 1int,
{
    if i < 0 || i >= s.len() {
        i
    } else if is_ws(s[i]) {
        ws_end(s, i + 1)
    } else if s[i] == '/' && i + 1 < s.len() && s[i + 1] == '/' {
        let ce = comment_end(s, i + 2);
        if i < ce <= s.len() {
            ws_end(s, ce)
        } else {
            i
        }
    } else {
        i
    }
}

/// The end of the word starting at `i`.
pub open spec fn word_end(s: Seq<char>, i: int) -> int
    decreases s.len() - i,
{
    if i < 0 || i >= s.len() || !is_word_char(s[i]) {
        i
    } else {
        word_end(s, i + 1)
    }
}

/// The value of the digit run `s[i..j)`, clamped above 255 once it can
/// no longer be a byte.
pub open spec fn digits_val(s: Seq<char>, i: int, j: int) -> int
    decreases j - i,
{
    if j <= i {
        0
    } else {
        let prev = digits_val(s, i, j - 1);
        if prev > 255 {
            256
        } else {
            prev * 10 + digit_of(s[j - 1])
        }
    }
}

/// An identifier after optional whitespace: a letter, then word
/// characters.
pub open spec fn ident_spec(s: Seq<char>, i: int) -> Option<(Seq<char>, int)> {
    let w = ws_end(s, i);
    let e = word_end(s, w);
    if w < s.len() && crate::analysis::is_name_start(s[w]) && e > w {
        Some((s.subrange(w, e), e))
    } else {
        None
    }
}

/// The byte a character literal denotes, and the position after it.
pub open spec fn char_lit_spec(s: Seq<char>, i: int) -> Option<(u8, int)> {
    if 0 <= i && i + 1 < s.len() && s[i] == '\'' && s[i + 1] == '\\' {
        if i + 3 < s.len() && s[i + 3] == '\'' {
            if s[i + 2] == 'n' {
                Some((10u8, i + 4))
            } else if s[i + 2] == 't' {
                Some((9u8, i + 4))
            } else if s[i + 2] == 'r' {
                Some((13u8, i + 4))
            } else if s[i + 2] == '\\' {
                Some((92u8, i + 4))
            } else if s[i + 2] == '\'' {
                Some((39u8, i + 4))
            } else {
                None
            }
        } else {
            None
        }
    } else if 0 <= i && i + 2 < s.len() && s[i] == '\'' && s[i + 1] != '\'' && s[i + 2] == '\'' {
        if s[i + 1] as u32 <= 255 {
            Some(((s[i + 1] as u32) as u8, i + 3))
        } else {
            None
        }
    } else {
        None
    }
}

/// A byte operand after optional whitespace: an integer `0..255` or a
/// character literal.
pub open spec fn byte_spec(s: Seq<char>, i: int) -> Option<(u8, int)> {
    let w = ws_end(s, i);
    if w < s.len() && digit_of(s[w]) < 10 {
        let e = word_end(s, w);
        let v = digits_val(s, w, e);
        if e > w && v <= 255 && (forall|k: int| w <= k < e ==> digit_of(s[k]) < 10) {
            Some((v as u8, e))
        } else {
            None
        }
    } else if w < s.len() && s[w] == '\'' {
        char_lit_spec(s, w)
    } else {
        None
    }
}

/// A string operand after optional whitespace: a `"`-delimited literal
/// kept raw, or a character literal as a one-character message.
pub open spec fn msg_spec(s: Seq<char>, i: int) -> Option<(Seq<char>, int)> {
    let w = ws_end(s, i);
    if w < s.len() && s[w] == '"' {
        let e = quote_end(s, w + 1);
        if e < s.len() {
            Some((s.subrange(w + 1, e), e + 1))
        } else {
            None
        }
    } else if w < s.len() && s[w] == '\'' {
        match char_lit_spec(s, w) {
            Some((b, j)) => Some((s.subrange(w + 1, j - 1), j)),
            None => None,
        }
    } else {
        None
    }
}

/// The position of the closing quote at or after `i`.
pub open spec fn quote_end(s: Seq<char>, i: int) -> int
    decreases s.len() - i,
{
    if i < 0 || i >= s.len() {
        i
    } else if s[i] == '"' {
        i
    } else {
        quote_end(s, i + 1)
    }
}

/// The keys of a `match`, read until the closing bracket; commas
/// between keys are allowed.
pub open spec fn keys_spec(s: Seq<char>, i: int) -> Option<(Seq<u8>, int)>
    decreases s.len() - i,
{
    let w = ws_end(s, i);
    if w >= s.len() {
        None
    } else if s[w] == ']' {
        Some((Seq::empty(), w + 1))
    } else {
        match byte_spec(s, w) {
            Some((b, j)) => {
                let w2 = ws_end(s, j);
                let j2 = if w2 < s.len() && s[w2] == ',' {
                    w2 + 1
                } else {
                    w2
                };
                if i < j2 <= s.len() {
                    match keys_spec(s, j2) {
                        Some((rest, e)) => Some((seq![b] + rest, e)),
                        None => None,
                    }
                } else {
                    None
                }
            }
            None => None,
        }
    }
}

/// A string literal after optional whitespace, kept raw.
pub open spec fn str_lit_spec(s: Seq<char>, i: int) -> Option<(Seq<char>, int)> {
    let w = ws_end(s, i);
    if w < s.len() && s[w] == '"' {
        let e = quote_end(s, w + 1);
        if e < s.len() {
            Some((s.subrange(w + 1, e), e + 1))
        } else {
            None
        }
    } else {
        None
    }
}

/// One instruction read at a position that already sits on its
/// keyword.
pub open spec fn parse_one_spec(s: Seq<char>, i: int) -> Option<(InstrView, int)> {
    let e = word_end(s, i);
    let kw = s.subrange(i, e);
    if e <= i {
        None
    } else if kw == seq!['c', 'o', 'p', 'y'] {
        match ident_spec(s, e) {
            Some((a, p)) => match ident_spec(s, p) {
                Some((b, q)) => Some((InstrView::Copy(a, b), q)),
                None => None,
            },
            None => None,
        }
    } else if kw == seq!['s', 'e', 't'] {
        match ident_spec(s, e) {
            Some((a, p)) => match byte_spec(s, p) {
                Some((k, q)) => Some((InstrView::Assign(a, k), q)),
                None => None,
            },
            None => None,
        }
    } else if kw == seq!['i', 'n', 'c'] {
        match ident_spec(s, e) {
            Some((a, p)) => Some((InstrView::Inc(a), p)),
            None => None,
        }
    } else if kw == seq!['d', 'e', 'c'] {
        match ident_spec(s, e) {
            Some((a, p)) => Some((InstrView::Dec(a), p)),
            None => None,
        }
    } else if kw == seq!['i', 'n', 'c', '_', 'b', 'y'] {
        match ident_spec(s, e) {
            Some((a, p)) => match byte_spec(s, p) {
                Some((k, q)) => Some((InstrView::IncBy(a, k), q)),
                None => None,
            },
            None => None,
        }
    } else if kw == seq!['d', 'e', 'c', '_', 'b', 'y'] {
        match ident_spec(s, e) {
            Some((a, p)) => match byte_spec(s, p) {
                Some((k, q)) => Some((InstrView::DecBy(a, k), q)),
                None => None,
            },
            None => None,
        }
    } else if kw == seq!['r', 'e', 'a', 'd'] {
        match ident_spec(s, e) {
            Some((a, p)) => Some((InstrView::Read(a), p)),
            None => None,
        }
    } else if kw == seq!['p', 'r', 'i', 'n', 't'] {
        match ident_spec(s, e) {
            Some((a, p)) => Some((InstrView::Print(a), p)),
            None => None,
        }
    } else if kw == seq!['p', 'r', 'i', 'n', 't', 'c'] {
        match ident_spec(s, e) {
            Some((a, p)) => Some((InstrView::PrintC(a), p)),
            None => None,
        }
    } else if kw == seq!['p', 'r', 'i', 'n', 't', '_', 'm', 's', 'g'] {
        match msg_spec(s, e) {
            Some((m, p)) => Some((InstrView::PrintMsg(m), p)),
            None => None,
        }
    } else if kw == seq!['a', 'd', 'd'] {
        match ident_spec(s, e) {
            Some((a, p)) => match ident_spec(s, p) {
                Some((b, q)) => Some((InstrView::Add(a, b), q)),
                None => None,
            },
            None => None,
        }
    } else if kw == seq!['s', 'u', 'b'] {
        match ident_spec(s, e) {
            Some((a, p)) => match ident_spec(s, p) {
                Some((b, q)) => Some((InstrView::Sub(a, b), q)),
                None => None,
            },
            None => None,
        }
    } else if kw == seq!['m', 'u', 'l'] {
        match ident_spec(s, e) {
            Some((a, p)) => match ident_spec(s, p) {
                Some((b, q)) => Some((InstrView::Mul(a, b), q)),
                None => None,
            },
            None => None,
        }
    } else if kw == seq!['d', 'i', 'v'] {
        match ident_spec(s, e) {
            Some((a, p)) => match ident_spec(s, p) {
                Some((b, q)) => match ident_spec(s, q) {
                    Some((rm, t)) => match ident_spec(s, t) {
                        Some((qt, u)) => Some((InstrView::Div(a, b, rm, qt), u)),
                        None => None,
                    },
                    None => None,
                },
                None => None,
            },
            None => None,
        }
    } else if kw == seq!['i', 'f', '_', 'e', 'q'] {
        match ident_spec(s, e) {
            Some((a, p)) => match ident_spec(s, p) {
                Some((b, q)) => Some((InstrView::IfEqual(a, b), q)),
                None => match byte_spec(s, p) {
                    Some((k, q)) => Some((InstrView::IfEqualConst(a, k), q)),
                    None => None,
                },
            },
            None => None,
        }
    } else if kw == seq!['i', 'f', '_', 'e', 'q', '_', 'c'] {
        match ident_spec(s, e) {
            Some((a, p)) => match byte_spec(s, p) {
                Some((k, q)) => Some((InstrView::IfEqualConst(a, k), q)),
                None => None,
            },
            None => None,
        }
    } else if kw == seq!['i', 'f', '_', 'n', 'e', 'q'] {
        match ident_spec(s, e) {
            Some((a, p)) => match ident_spec(s, p) {
                Some((b, q)) => Some((InstrView::IfNotEqual(a, b), q)),
                None => match byte_spec(s, p) {
                    Some((k, q)) => Some((InstrView::IfNotEqualConst(a, k), q)),
                    None => None,
                },
            },
            None => None,
        }
    } else if kw == seq!['i', 'f', '_', 'n', 'e', 'q', '_', 'c'] {
        match ident_spec(s, e) {
            Some((a, p)) => match byte_spec(s, p) {
                Some((k, q)) => Some((InstrView::IfNotEqualConst(a, k), q)),
                None => None,
            },
            None => None,
        }
    } else if kw == seq!['u', 'n', 't', 'i', 'l', '_', 'e', 'q'] {
        match ident_spec(s, e) {
            Some((a, p)) => match ident_spec(s, p) {
                Some((b, q)) => Some((InstrView::UntilEqual(a, b), q)),
                None => None,
            },
            None => None,
        }
    } else if kw == seq!['w', 'h', 'i', 'l', 'e', '_', 'n', 'z'] {
        match ident_spec(s, e) {
            Some((a, p)) => Some((InstrView::WhileNotZero(a), p)),
            None => None,
        }
    } else if kw == seq!['m', 'a', 't', 'c', 'h'] {
        match ident_spec(s, e) {
            Some((a, p)) => {
                let w = ws_end(s, p);
                if w < s.len() && s[w] == '[' {
                    match keys_spec(s, w + 1) {
                        Some((ks, q)) => Some((InstrView::Match(a, ks), q)),
                        None => None,
                    }
                } else {
                    None
                }
            }
            None => None,
        }
    } else if kw == seq!['c', 'a', 's', 'e'] {
        Some((InstrView::Case, e))
    } else if kw == seq!['e', 'n', 'd'] {
        Some((InstrView::End, e))
    } else if kw == seq!['c', 'm', 'p'] || kw == seq![
        'c',
        'o',
        'm',
        'p',
        'a',
        'r',
        'e',
    ] {
        match ident_spec(s, e) {
            Some((a, p)) => match ident_spec(s, p) {
                Some((b, q)) => match ident_spec(s, q) {
                    Some((c, t)) => Some((InstrView::Compare(a, b, c), t)),
                    None => None,
                },
                None => None,
            },
            None => None,
        }
    } else if kw == seq!['p', 'u', 's', 'h'] {
        match ident_spec(s, e) {
            Some((a, p)) => Some((InstrView::Push(a), p)),
            None => None,
        }
    } else if kw == seq!['p', 'o', 'p'] {
        match ident_spec(s, e) {
            Some((a, p)) => Some((InstrView::Pop(a), p)),
            None => None,
        }
    } else if kw == seq!['r', 'a', 'w'] {
        match str_lit_spec(s, e) {
            Some((t, p)) => Some((InstrView::Raw(t), p)),
            None => None,
        }
    } else {
        None
    }
}

/// The whole text as an instruction list, or nothing where any
/// instruction is malformed.
pub open spec fn parse_all_spec(s: Seq<char>, i: int) -> Option<Seq<InstrView>>
    decreases s.len() - i,
{
    if i < 0 {
        None
    } else {
        let w = ws_end(s, i);
        if w >= s.len() || w < i {
            if w >= s.len() {
                Some(Seq::empty())
            } else {
                None
            }
        } else {
            match parse_one_spec(s, w) {
                Some((v, j)) => if i < j <= s.len() {
                    match parse_all_spec(s, j) {
                        Some(rest) => Some(seq![v] + rest),
                        None => None,
                    }
                } else {
                    None
                },
                None => None,
            }
        }
    }
}

/// The word scan never moves left.
proof fn lemma_word_end_ge(s: Seq<char>, i: int)
    ensures
        word_end(s, i) >= i,
    decreases s.len() - i,
{
    if 0 <= i < s.len() && is_word_char(s[i]) {
        lemma_word_end_ge(s, i + 1);
    }
}

/// Bounds of the comment scan.
proof fn lemma_comment_end_bounds(s: Seq<char>, i: int)
    requires
        0 <= i <= s.len(),
    ensures
        i <= comment_end(s, i) <= s.len(),
    decreases s.len() - i,
{
    if i < s.len() && s[i] != '\n' {
        lemma_comment_end_bounds(s, i + 1);
    }
}

/// Skip whitespace and comments, mirroring `ws_end`.
fn skip_ws(chars: &Vec<char>, i: usize) -> (r: usize)
    requires
        i <= chars@.len(),
    ensures
        r as int == ws_end(chars@, i as int),
        i <= r <= chars@.len(),
{
    let ghost s = chars@;
    let n = chars.len();
    let mut cur = i;
    loop
        invariant
            i <= cur <= n,
            n == s.len(),
            chars@ == s,
            ws_end(s, i as int) == ws_end(s, cur as int),
        ensures
            cur as int == ws_end(s, i as int),
            i <= cur <= n,
        decreases n - cur,
    {
        if cur >= n {
            break;
        }
        let c = chars[cur];
        if c == ' ' || c == '\t' || c == '\r' || c == '\n' {
            cur = cur + 1;
        } else if c == '/' && cur + 1 < n && chars[cur + 1] == '/' {
            let mut ce = cur + 2;
            while ce < n && chars[ce] != '\n'
                invariant
                    cur + 2 <= ce <= n,
                    n == s.len(),
                    chars@ == s,
                    comment_end(s, cur + 2) == comment_end(s, ce as int),
                decreases n - ce,
            {
                ce = ce + 1;
            }
            proof {
                assert(comment_end(s, ce as int) == ce);
                assert(ws_end(s, cur as int) == ws_end(s, ce as int));
            }
            cur = ce;
        } else {
            break;
        }
    }
    cur
}

/// The end of the word at `i`, mirroring `word_end`.
fn scan_word(chars: &Vec<char>, i: usize) -> (r: usize)
    requires
        i <= chars@.len(),
    ensures
        r as int == word_end(chars@, i as int),
        i <= r <= chars@.len(),
{
    let ghost s = chars@;
    let n = chars.len();
    let mut cur = i;
    loop
        invariant
            i <= cur <= n,
            n == s.len(),
            chars@ == s,
            word_end(s, i as int) == word_end(s, cur as int),
        ensures
            cur as int == word_end(s, i as int),
            i <= cur <= n,
        decreases n - cur,
    {
        if cur >= n {
            break;
        }
        let c = chars[cur];
        let u = c as u32;
        let wordy = (65 <= u && u <= 90) || (97 <= u && u <= 122) || (48 <= u && u <= 57)
            || u == 95 || u == 45;
        if wordy {
            cur = cur + 1;
        } else {
            break;
        }
    }
    cur
}

/// Whether the word `chars[a..b)` is exactly the literal.
pub(crate) fn word_is(chars: &Vec<char>, a: usize, b: usize, lit: &str) -> (r: bool)
    requires
        a <= b <= chars@.len(),
    ensures
        r == (chars@.subrange(a as int, b as int) == lit@),
{
    let n = lit.unicode_len();
    if b - a != n {
        return false;
    }
    let mut k: usize = 0;
    while k < n
        invariant
            k <= n,
            n == lit@.len(),
            a + n == b,
            b <= chars@.len(),
            forall|t: int| 0 <= t < k ==> chars@[a + t] == lit@[t],
        decreases n - k,
    {
        if chars[a + k] != lit.get_char(k) {
            proof {
                assert(chars@.subrange(a as int, b as int)[k as int] != lit@[k as int]);
            }
            return false;
        }
        k = k + 1;
    }
    proof {
        assert(chars@.subrange(a as int, b as int) =~= lit@);
    }
    true
}

/// Read an identifier operand, mirroring `ident_spec`.
fn read_ident(chars: &Vec<char>, src: &str, i: usize) -> (r: Option<(String, usize)>)
    requires
        chars@ == src@,
        i <= chars@.len(),
    ensures
        match ident_spec(chars@, i as int) {
            Some((nm, p)) => r matches Some(rp) && rp.0@ == nm && rp.1 == p && i <= p
                <= chars@.len(),
            None => r is None,
        },
{
    let n = chars.len();
    let w = skip_ws(chars, i);
    if w >= n {
        return None;
    }
    let c = chars[w];
    let u = c as u32;
    if !((65 <= u && u <= 90) || (97 <= u && u <= 122)) {
        return None;
    }
    let e = scan_word(chars, w);
    if e <= w {
        return None;
    }
    let piece = src.substring_char(w, e);
    Some((piece.to_owned(), e))
}

/// Read a character literal, mirroring `char_lit_spec`.
fn read_char_lit(chars: &Vec<char>, i: usize) -> (r: Option<(u8, usize)>)
    requires
        i <= chars@.len(),
    ensures
        match char_lit_spec(chars@, i as int) {
            Some((b, p)) => r matches Some(rp) && rp.0 == b && rp.1 == p && i <= p
                <= chars@.len(),
            None => r is None,
        },
{
    let n = chars.len();
    if n - i > 1 && chars[i] == '\'' && chars[i + 1] == '\\' {
        if n - i > 3 && chars[i + 3] == '\'' {
            let e = chars[i + 2];
            if e == 'n' {
                Some((10, i + 4))
            } else if e == 't' {
                Some((9, i + 4))
            } else if e == 'r' {
                Some((13, i + 4))
            } else if e == '\\' {
                Some((92, i + 4))
            } else if e == '\'' {
                Some((39, i + 4))
            } else {
                None
            }
        } else {
            None
        }
    } else if n - i > 2 && chars[i] == '\'' && chars[i + 1] != '\'' && chars[i + 2] == '\'' {
        let u = chars[i + 1] as u32;
        if u <= 255 {
            Some((u as u8, i + 3))
        } else {
            None
        }
    } else {
        None
    }
}

/// Read a byte operand, mirroring `byte_spec`.
fn read_byte(chars: &Vec<char>, i: usize) -> (r: Option<(u8, usize)>)
    requires
        i <= chars@.len(),
    ensures
        match byte_spec(chars@, i as int) {
            Some((b, p)) => r matches Some(rp) && rp.0 == b && rp.1 == p && i <= p
                <= chars@.len(),
            None => r is None,
        },
{
    let ghost s = chars@;
    let n = chars.len();
    let w = skip_ws(chars, i);
    if w < n && {
        let u = chars[w] as u32;
        48 <= u && u <= 57
    } {
        let e = scan_word(chars, w);
        proof {
            assert(is_word_char(s[w as int]));
            assert(word_end(s, w as int) == word_end(s, w as int + 1));
            lemma_word_end_ge(s, w as int + 1);
        }
        let mut acc: u32 = 0;
        let mut k = w;
        while k < e
            invariant
                w <= k <= e <= n,
                i <= w < n,
                n == s.len(),
                chars@ == s,
                w as int == ws_end(s, i as int),
                e as int == word_end(s, w as int),
                digit_of(s[w as int]) < 10,
                acc as int == digits_val(s, w as int, k as int),
                acc <= 2560,
                forall|t: int| w <= t < k ==> digit_of(s[t]) < 10,
            decreases e - k,
        {
            let c = chars[k];
            let u = c as u32;
            if !(48 <= u && u <= 57) {
                return None;
            }
            if acc > 255 {
                acc = 256;
            } else {
                acc = acc * 10 + (u - 48);
            }
            k = k + 1;
        }
        if acc <= 255 {
            Some((acc as u8, e))
        } else {
            None
        }
    } else if w < n && chars[w] == '\'' {
        read_char_lit(chars, w)
    } else {
        None
    }
}

/// Read a message operand, mirroring `msg_spec`.
fn read_msg(chars: &Vec<char>, src: &str, i: usize) -> (r: Option<(String, usize)>)
    requires
        chars@ == src@,
        i <= chars@.len(),
    ensures
        match msg_spec(chars@, i as int) {
            Some((m, p)) => r matches Some(rp) && rp.0@ == m && rp.1 == p && i <= p
                <= chars@.len(),
            None => r is None,
        },
{
    let ghost s = chars@;
    let n = chars.len();
    let w = skip_ws(chars, i);
    if w < n && chars[w] == '"' {
        let mut e = w + 1;
        while e < n && chars[e] != '"'
            invariant
                w + 1 <= e <= n,
                n == s.len(),
                chars@ == s,
                quote_end(s, w + 1) == quote_end(s, e as int),
            decreases n - e,
        {
            e = e + 1;
        }
        proof {
            assert(quote_end(s, e as int) == e);
        }
        if e < n {
            let piece = src.substring_char(w + 1, e);
            Some((piece.to_owned(), e + 1))
        } else {
            None
        }
    } else if w < n && chars[w] == '\'' {
        match read_char_lit(chars, w) {
            Some((_, j)) => {
                let piece = src.substring_char(w + 1, j - 1);
                Some((piece.to_owned(), j))
            }
            None => None,
        }
    } else {
        None
    }
}

/// Read a raw string operand, mirroring `str_lit_spec`.
fn read_str(chars: &Vec<char>, src: &str, i: usize) -> (r: Option<(String, usize)>)
    requires
        chars@ == src@,
        i <= chars@.len(),
    ensures
        match str_lit_spec(chars@, i as int) {
            Some((m, p)) => r matches Some(rp) && rp.0@ == m && rp.1 == p && i <= p
                <= chars@.len(),
            None => r is None,
        },
{
    let ghost s = chars@;
    let n = chars.len();
    let w = skip_ws(chars, i);
    if w < n && chars[w] == '"' {
        let mut e = w + 1;
        while e < n && chars[e] != '"'
            invariant
                w + 1 <= e <= n,
                n == s.len(),
                chars@ == s,
                quote_end(s, w + 1) == quote_end(s, e as int),
            decreases n - e,
        {
            e = e + 1;
        }
        proof {
            assert(quote_end(s, e as int) == e);
        }
        if e < n {
            let piece = src.substring_char(w + 1, e);
            Some((piece.to_owned(), e + 1))
        } else {
            None
        }
    } else {
        None
    }
}

/// Read a `match` key list after its opening bracket, mirroring
/// `keys_spec`.
fn read_keys(chars: &Vec<char>, i: usize) -> (r: Option<(Vec<u8>, usize)>)
    requires
        i <= chars@.len(),
    ensures
        match keys_spec(chars@, i as int) {
            Some((ks, p)) => r matches Some(rp) && rp.0@ == ks && rp.1 == p && p
                <= chars@.len(),
            None => r is None,
        },
{
    let ghost s = chars@;
    let ghost i0 = i as int;
    let n = chars.len();
    let mut out: Vec<u8> = Vec::new();
    let mut cur = i;
    proof {
        match keys_spec(s, i0) {
            Some((rest, e)) => {
                assert(out@ + rest =~= rest);
            }
            None => {}
        }
    }
    loop
        invariant_except_break
            match keys_spec(s, cur as int) {
                Some((rest, e)) => keys_spec(s, i0) == Some::<(Seq<u8>, int)>(
                    (out@ + rest, e),
                ),
                None => keys_spec(s, i0) is None,
            },
        invariant
            i <= cur <= n,
            i0 == i as int,
            n == s.len(),
            chars@ == s,
        ensures
            match keys_spec(s, i0) {
                Some((ks, p)) => out@ == ks && cur as int == p && cur <= n,
                None => false,
            },
        decreases n - cur,
    {
        let w = skip_ws(chars, cur);
        if w >= n {
            proof {
                assert(keys_spec(s, cur as int) is None);
            }
            return None;
        }
        if chars[w] == ']' {
            proof {
                assert(keys_spec(s, cur as int) == Some::<(Seq<u8>, int)>(
                    (Seq::empty(), w + 1),
                ));
                assert(out@ + Seq::<u8>::empty() =~= out@);
            }
            cur = w + 1;
            break;
        }
        let b = match read_byte(chars, w) {
            Some(bj) => bj,
            None => {
                proof {
                    assert(keys_spec(s, cur as int) is None);
                }
                return None;
            }
        };
        let j = b.1;
        let w2 = skip_ws(chars, j);
        let j2 = if w2 < n && chars[w2] == ',' {
            w2 + 1
        } else {
            w2
        };
        if !(cur < j2 && j2 <= n) {
            proof {
                assert(keys_spec(s, cur as int) is None);
            }
            return None;
        }
        let ghost pre = out@;
        out.push(b.0);
        proof {
            assert(keys_spec(s, cur as int) == (match keys_spec(s, j2 as int) {
                Some((rest, e)) => Some::<(Seq<u8>, int)>((seq![b.0] + rest, e)),
                None => None,
            })) by {
                reveal_with_fuel(keys_spec, 2);
            }
            match keys_spec(s, j2 as int) {
                Some((rest, e)) => {
                    assert(pre + (seq![b.0] + rest) =~= out@ + rest);
                    assert(keys_spec(s, cur as int) == Some::<(Seq<u8>, int)>(
                        (seq![b.0] + rest, e),
                    ));
                    assert(keys_spec(s, i0) == Some::<(Seq<u8>, int)>(
                        (pre + (seq![b.0] + rest), e),
                    ));
                    assert(pre + (seq![b.0] + rest) == out@ + rest);
                    assert(keys_spec(s, i0) == Some::<(Seq<u8>, int)>((out@ + rest, e)));
                }
                None => {
                    assert(keys_spec(s, cur as int) is None);
                    assert(keys_spec(s, i0) is None);
                }
            }
        }
        cur = j2;
    }
    Some((out, cur))
}

/// Read one instruction at a position that sits on its keyword,
/// mirroring `parse_one_spec`.
#[verifier::rlimit(100)]
fn parse_one(chars: &Vec<char>, src: &str, i: usize) -> (r: Option<(Instruction, usize)>)
    requires
        chars@ == src@,
        i <= chars@.len(),
    ensures
        match parse_one_spec(chars@, i as int) {
            Some((v, j)) => r matches Some(rp) && instr_view(rp.0) == v && rp.1 == j && rp.1
                <= chars@.len(),
            None => r is None,
        },
{
    proof {
        reveal_strlit("copy");
        reveal_strlit("set");
        reveal_strlit("inc");
        reveal_strlit("dec");
        reveal_strlit("inc_by");
        reveal_strlit("dec_by");
        reveal_strlit("read");
        reveal_strlit("print");
        reveal_strlit("printc");
        reveal_strlit("print_msg");
        reveal_strlit("add");
        reveal_strlit("sub");
        reveal_strlit("mul");
        reveal_strlit("div");
        reveal_strlit("if_eq");
        reveal_strlit("if_eq_c");
        reveal_strlit("if_neq");
        reveal_strlit("if_neq_c");
        reveal_strlit("until_eq");
        reveal_strlit("while_nz");
        reveal_strlit("match");
        reveal_strlit("case");
        reveal_strlit("end");
        reveal_strlit("cmp");
        reveal_strlit("compare");
        reveal_strlit("push");
        reveal_strlit("pop");
        reveal_strlit("raw");
        assert("copy"@ =~= seq!['c', 'o', 'p', 'y']);
        assert("set"@ =~= seq!['s', 'e', 't']);
        assert("inc"@ =~= seq!['i', 'n', 'c']);
        assert("dec"@ =~= seq!['d', 'e', 'c']);
        assert("inc_by"@ =~= seq!['i', 'n', 'c', '_', 'b', 'y']);
        assert("dec_by"@ =~= seq!['d', 'e', 'c', '_', 'b', 'y']);
        assert("read"@ =~= seq!['r', 'e', 'a', 'd']);
        assert("print"@ =~= seq!['p', 'r', 'i', 'n', 't']);
        assert("printc"@ =~= seq!['p', 'r', 'i', 'n', 't', 'c']);
        assert("print_msg"@ =~= seq!['p', 'r', 'i', 'n', 't', '_', 'm', 's', 'g']);
        assert("add"@ =~= seq!['a', 'd', 'd']);
        assert("sub"@ =~= seq!['s', 'u', 'b']);
        assert("mul"@ =~= seq!['m', 'u', 'l']);
        assert("div"@ =~= seq!['d', 'i', 'v']);
        assert("if_eq"@ =~= seq!['i', 'f', '_', 'e', 'q']);
        assert("if_eq_c"@ =~= seq!['i', 'f', '_', 'e', 'q', '_', 'c']);
        assert("if_neq"@ =~= seq!['i', 'f', '_', 'n', 'e', 'q']);
        assert("if_neq_c"@ =~= seq!['i', 'f', '_', 'n', 'e', 'q', '_', 'c']);
        assert("until_eq"@ =~= seq!['u', 'n', 't', 'i', 'l', '_', 'e', 'q']);
        assert("while_nz"@ =~= seq!['w', 'h', 'i', 'l', 'e', '_', 'n', 'z']);
        assert("match"@ =~= seq!['m', 'a', 't', 'c', 'h']);
        assert("case"@ =~= seq!['c', 'a', 's', 'e']);
        assert("end"@ =~= seq!['e', 'n', 'd']);
        assert("cmp"@ =~= seq!['c', 'm', 'p']);
        assert("compare"@ =~= seq!['c', 'o', 'm', 'p', 'a', 'r', 'e']);
        assert("push"@ =~= seq!['p', 'u', 's', 'h']);
        assert("pop"@ =~= seq!['p', 'o', 'p']);
        assert("raw"@ =~= seq!['r', 'a', 'w']);
    }
    let e = scan_word(chars, i);
    if e <= i {
        return None;
    }
    if word_is(chars, i, e, "copy") {
        let (a, p) = match read_ident(chars, src, e) {
            Some(x) => x,
            None => {
                return None;
            }
        };
        let (b, q) = match read_ident(chars, src, p) {
            Some(x) => x,
            None => {
                return None;
            }
        };
        Some((Instruction::Copy { a, b }, q))
    } else if word_is(chars, i, e, "set") {
        let (a, p) = match read_ident(chars, src, e) {
            Some(x) => x,
            None => {
                return None;
            }
        };
        let (k, q) = match read_byte(chars, p) {
            Some(x) => x,
            None => {
                return None;
            }
        };
        Some((Instruction::Assign(a, k), q))
    } else if word_is(chars, i, e, "inc") {
        match read_ident(chars, src, e) {
            Some((a, p)) => Some((Instruction::Inc(a), p)),
            None => None,
        }
    } else if word_is(chars, i, e, "dec") {
        match read_ident(chars, src, e) {
            Some((a, p)) => Some((Instruction::Dec(a), p)),
            None => None,
        }
    } else if word_is(chars, i, e, "inc_by") {
        let (a, p) = match read_ident(chars, src, e) {
            Some(x) => x,
            None => {
                return None;
            }
        };
        match read_byte(chars, p) {
            Some((k, q)) => Some((Instruction::IncBy(a, k), q)),
            None => None,
        }
    } else if word_is(chars, i, e, "dec_by") {
        let (a, p) = match read_ident(chars, src, e) {
            Some(x) => x,
            None => {
                return None;
            }
        };
        match read_byte(chars, p) {
            Some((k, q)) => Some((Instruction::DecBy(a, k), q)),
            None => None,
        }
    } else if word_is(chars, i, e, "read") {
        match read_ident(chars, src, e) {
            Some((a, p)) => Some((Instruction::Read(a), p)),
            None => None,
        }
    } else if word_is(chars, i, e, "print") {
        match read_ident(chars, src, e) {
            Some((a, p)) => Some((Instruction::Print(a), p)),
            None => None,
        }
    } else if word_is(chars, i, e, "printc") {
        match read_ident(chars, src, e) {
            Some((a, p)) => Some((Instruction::PrintC(a), p)),
            None => None,
        }
    } else if word_is(chars, i, e, "print_msg") {
        match read_msg(chars, src, e) {
            Some((m, p)) => Some((Instruction::PrintMsg(m), p)),
            None => None,
        }
    } else if word_is(chars, i, e, "add") {
        let (a, p) = match read_ident(chars, src, e) {
            Some(x) => x,
            None => {
                return None;
            }
        };
        match read_ident(chars, src, p) {
            Some((b, q)) => Some((Instruction::Add { a, b }, q)),
            None => None,
        }
    } else if word_is(chars, i, e, "sub") {
        let (a, p) = match read_ident(chars, src, e) {
            Some(x) => x,
            None => {
                return None;
            }
        };
        match read_ident(chars, src, p) {
            Some((b, q)) => Some((Instruction::Sub { a, b }, q)),
            None => None,
        }
    } else if word_is(chars, i, e, "mul") {
        let (a, p) = match read_ident(chars, src, e) {
            Some(x) => x,
            None => {
                return None;
            }
        };
        match read_ident(chars, src, p) {
            Some((b, q)) => Some((Instruction::Mul { a, b }, q)),
            None => None,
        }
    } else if word_is(chars, i, e, "div") {
        let (a, p) = match read_ident(chars, src, e) {
            Some(x) => x,
            None => {
                return None;
            }
        };
        let (b, q) = match read_ident(chars, src, p) {
            Some(x) => x,
            None => {
                return None;
            }
        };
        let (rm, t) = match read_ident(chars, src, q) {
            Some(x) => x,
            None => {
                return None;
            }
        };
        match read_ident(chars, src, t) {
            Some((qt, u)) => Some(
                (Instruction::Div { a, b, remainder: rm, quotient: qt }, u),
            ),
            None => None,
        }
    } else if word_is(chars, i, e, "if_eq") {
        let (a, p) = match read_ident(chars, src, e) {
            Some(x) => x,
            None => {
                return None;
            }
        };
        match read_ident(chars, src, p) {
            Some((b, q)) => Some((Instruction::IfEqual { a, b }, q)),
            None => match read_byte(chars, p) {
                Some((k, q)) => Some((Instruction::IfEqualConst { a, b: k }, q)),
                None => None,
            },
        }
    } else if word_is(chars, i, e, "if_eq_c") {
        let (a, p) = match read_ident(chars, src, e) {
            Some(x) => x,
            None => {
                return None;
            }
        };
        match read_byte(chars, p) {
            Some((k, q)) => Some((Instruction::IfEqualConst { a, b: k }, q)),
            None => None,
        }
    } else if word_is(chars, i, e, "if_neq") {
        let (a, p) = match read_ident(chars, src, e) {
            Some(x) => x,
            None => {
                return None;
            }
        };
        match read_ident(chars, src, p) {
            Some((b, q)) => Some((Instruction::IfNotEqual { a, b }, q)),
            None => match read_byte(chars, p) {
                Some((k, q)) => Some((Instruction::IfNotEqualConst { a, b: k }, q)),
                None => None,
            },
        }
    } else if word_is(chars, i, e, "if_neq_c") {
        let (a, p) = match read_ident(chars, src, e) {
            Some(x) => x,
            None => {
                return None;
            }
        };
        match read_byte(chars, p) {
            Some((k, q)) => Some((Instruction::IfNotEqualConst { a, b: k }, q)),
            None => None,
        }
    } else if word_is(chars, i, e, "until_eq") {
        let (a, p) = match read_ident(chars, src, e) {
            Some(x) => x,
            None => {
                return None;
            }
        };
        match read_ident(chars, src, p) {
            Some((b, q)) => Some((Instruction::UntilEqual { a, b }, q)),
            None => None,
        }
    } else if word_is(chars, i, e, "while_nz") {
        match read_ident(chars, src, e) {
            Some((a, p)) => Some((Instruction::WhileNotZero(a), p)),
            None => None,
        }
    } else if word_is(chars, i, e, "match") {
        let (a, p) = match read_ident(chars, src, e) {
            Some(x) => x,
            None => {
                return None;
            }
        };
        let n = chars.len();
        let w = skip_ws(chars, p);
        if w < n && chars[w] == '[' {
            match read_keys(chars, w + 1) {
                Some((ks, q)) => Some((Instruction::Match(a, ks), q)),
                None => None,
            }
        } else {
            None
        }
    } else if word_is(chars, i, e, "case") {
        Some((Instruction::Case(), e))
    } else if word_is(chars, i, e, "end") {
        Some((Instruction::End, e))
    } else if word_is(chars, i, e, "cmp") || word_is(chars, i, e, "compare") {
        let (a, p) = match read_ident(chars, src, e) {
            Some(x) => x,
            None => {
                return None;
            }
        };
        let (b, q) = match read_ident(chars, src, p) {
            Some(x) => x,
            None => {
                return None;
            }
        };
        match read_ident(chars, src, q) {
            Some((c, t)) => Some((Instruction::Compare { a, b, res: c }, t)),
            None => None,
        }
    } else if word_is(chars, i, e, "push") {
        match read_ident(chars, src, e) {
            Some((a, p)) => Some((Instruction::Push(a), p)),
            None => None,
        }
    } else if word_is(chars, i, e, "pop") {
        match read_ident(chars, src, e) {
            Some((a, p)) => Some((Instruction::Pop(a), p)),
            None => None,
        }
    } else if word_is(chars, i, e, "raw") {
        match read_str(chars, src, e) {
            Some((t, p)) => Some((Instruction::Raw(t), p)),
            None => None,
        }
    } else {
        None
    }
}

/// Parse LIR text into an instruction list. Succeeds exactly when the
/// grammar `parse_all_spec` accepts the whole text, and then returns
/// precisely the instructions the grammar denotes; otherwise the error
/// names the offending text.
pub fn parse(input: &str) -> (r: Result<Vec<Instruction>, ParseError>)
    ensures
        match parse_all_spec(input@, 0) {
            Some(views) => r is Ok && r->Ok_0@.map_values(|x: Instruction| instr_view(x))
                == views,
            None => r is Err,
        },
{
    let chars = collect_chars(input);
    let ghost s = input@;
    let n = chars.len();
    let mut out: Vec<Instruction> = Vec::new();
    let mut i: usize = 0;
    proof {
        match parse_all_spec(s, 0) {
            Some(views) => {
                assert(out@.map_values(|x: Instruction| instr_view(x)) + views =~= views);
            }
            None => {}
        }
    }
    loop
        invariant_except_break
            match parse_all_spec(s, i as int) {
                Some(rest) => parse_all_spec(s, 0) == Some::<Seq<InstrView>>(
                    out@.map_values(|x: Instruction| instr_view(x)) + rest,
                ),
                None => parse_all_spec(s, 0) is None,
            },
        invariant
            i <= n,
            n == s.len(),
            chars@ == s,
            input@ == s,
        ensures
            parse_all_spec(s, 0) == Some::<Seq<InstrView>>(
                out@.map_values(|x: Instruction| instr_view(x)),
            ),
        decreases n - i,
    {
        let w = skip_ws(&chars, i);
        if w >= n {
            proof {
                assert(parse_all_spec(s, i as int) == Some::<Seq<InstrView>>(Seq::empty()));
                assert(out@.map_values(|x: Instruction| instr_view(x)) + Seq::<
                    InstrView,
                >::empty() =~= out@.map_values(|x: Instruction| instr_view(x)));
            }
            break;
        }
        let step = match parse_one(&chars, input, w) {
            Some(x) => x,
            None => {
                proof {
                    assert(parse_all_spec(s, i as int) is None);
                }
                let upto = if n - w > 24 {
                    w + 24
                } else {
                    n
                };
                let tok = input.substring_char(w, upto);
                return Err(ParseError::InvalidInstruction(tok.to_owned()));
            }
        };
        let j = step.1;
        if !(i < j && j <= n) {
            proof {
                assert(parse_all_spec(s, i as int) is None);
            }
            let upto = if n - w > 24 {
                w + 24
            } else {
                n
            };
            let tok = input.substring_char(w, upto);
            return Err(ParseError::InvalidInstruction(tok.to_owned()));
        }
        let ghost pre = out@.map_values(|x: Instruction| instr_view(x));
        let ghost v = instr_view(step.0);
        out.push(step.0);
        proof {
            assert(parse_all_spec(s, i as int) == (match parse_all_spec(s, j as int) {
                Some(rest) => Some::<Seq<InstrView>>(seq![v] + rest),
                None => None,
            })) by {
                reveal_with_fuel(parse_all_spec, 2);
            }
            assert(out@.map_values(|x: Instruction| instr_view(x)) =~= pre.push(v));
            match parse_all_spec(s, j as int) {
                Some(rest) => {
                    assert(pre + (seq![v] + rest) =~= pre.push(v) + rest);
                }
                None => {}
            }
        }
        i = j;
    }
    Ok(out)
}

} // verus!
