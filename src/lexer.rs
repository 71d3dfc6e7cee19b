//! A byte-level tokenizer for the parts of Rust source that the assist reads.

use vstd::prelude::*;

verus! {

/// The classes of tokens that the assist tells apart.
#[derive(PartialEq, Eq, Structural, Clone, Copy)]
pub enum TokenKind {
    Ident,
    Punct,
    Literal,
    Whitespace,
    Comment,
}

/// A token: its class and the byte range it covers.
#[derive(PartialEq, Eq, Structural, Clone, Copy)]
pub struct Token {
    pub kind: TokenKind,
    pub start: usize,
    pub end: usize,
}

/// The tokens cover a text of `len` bytes, each non-empty, one after the other.
pub open spec fn tokens_wf(toks: Seq<Token>, len: int) -> bool {
    &&& forall|i: int| 0 <= i < toks.len() ==> #[trigger] toks[i].start < toks[i].end <= len
    &&& forall|i: int, j: int|
        0 <= i < j < toks.len() ==> #[trigger] toks[i].end <= #[trigger] toks[j].start
    &&& forall|i: int| 0 < i < toks.len() ==> #[trigger] toks[i].start == toks[i - 1].end
    &&& toks.len() == 0 <==> len == 0
    &&& toks.len() > 0 ==> toks[0].start == 0 && toks[toks.len() - 1].end == len
}

/// Each token's bytes fit its class: whitespace bytes only in whitespace, an
/// identifier starts with an identifier byte and holds only identifier bytes and
/// digits, punctuation is one byte.
pub open spec fn token_classified(text: Seq<u8>, t: Token) -> bool {
    &&& t.kind == TokenKind::Whitespace ==> forall|i: int| t.start <= i < t.end ==> is_space(#[trigger] text[i])
    &&& t.kind == TokenKind::Ident ==> is_ident_start(text[t.start as int]) && forall|i: int|
        t.start <= i < t.end ==> is_ident_continue(#[trigger] text[i])
    &&& t.kind == TokenKind::Punct ==> t.end == t.start + 1
}

pub open spec fn is_space(b: u8) -> bool {
    b == 32 || b == 9 || b == 10 || b == 13
}

pub open spec fn is_ident_start(b: u8) -> bool {
    (97 <= b <= 122) || (65 <= b <= 90) || b == 95 || b >= 128
}

pub open spec fn is_ident_continue(b: u8) -> bool {
    is_ident_start(b) || (48 <= b <= 57)
}

/// The end of the run of identifier bytes (or whitespace) from byte `i` on.
pub open spec fn run_spec(text: Seq<u8>, i: int, ident: bool) -> int
    decreases text.len() - i,
{
    if 0 <= i < text.len() && (if ident {
        is_ident_continue(text[i])
    } else {
        is_space(text[i])
    }) {
        run_spec(text, i + 1, ident)
    } else {
        i
    }
}

/// The end of a quoted literal scanned from byte `i` on: past the closing `quote`,
/// a backslash escaping the next byte, or the end of the text.
pub open spec fn quoted_spec(text: Seq<u8>, i: int, quote: u8) -> int
    decreases text.len() - i,
{
    if i < 0 || i >= text.len() {
        i
    } else if text[i] == quote {
        i + 1
    } else if text[i] == 92 && i + 1 < text.len() {
        quoted_spec(text, i + 2, quote)
    } else {
        quoted_spec(text, i + 1, quote)
    }
}

/// The end of a comment scanned from byte `i` on at nesting `depth`: a line
/// comment stops before the newline, a block comment after its matching close.
pub open spec fn comment_spec(text: Seq<u8>, i: int, block: bool, depth: int) -> int
    decreases text.len() - i,
{
    if i < 0 || i >= text.len() {
        i
    } else if !block {
        if text[i] == 10 {
            i
        } else {
            comment_spec(text, i + 1, block, depth)
        }
    } else if text[i] == 42 && i + 1 < text.len() && text[i + 1] == 47 {
        if depth <= 1 {
            i + 2
        } else {
            comment_spec(text, i + 2, block, depth - 1)
        }
    } else if text[i] == 47 && i + 1 < text.len() && text[i + 1] == 42 {
        comment_spec(text, i + 2, block, if depth < usize::MAX { depth + 1 } else { depth })
    } else {
        comment_spec(text, i + 1, block, depth)
    }
}

/// The class and end of the token that starts at byte `pos`: whitespace and
/// identifier runs and numbers are maximal, a string runs to its closing quote,
/// `'x'` and `'\..'` are character literals (a lone `'` is punctuation), `//` and
/// `/*` open comments, and any other byte is one punctuation token.
pub open spec fn scan_spec(text: Seq<u8>, pos: int) -> (TokenKind, int) {
    let b = text[pos];
    let n = text.len() as int;
    if is_space(b) {
        (TokenKind::Whitespace, run_spec(text, pos, false))
    } else if is_ident_start(b) {
        (TokenKind::Ident, run_spec(text, pos, true))
    } else if 48 <= b <= 57 {
        (TokenKind::Literal, run_spec(text, pos, true))
    } else if b == 34 {
        (TokenKind::Literal, quoted_spec(text, pos + 1, 34))
    } else if b == 39 {
        if pos + 2 < n && text[pos + 1] != 92 && text[pos + 2] == 39 {
            (TokenKind::Literal, pos + 3)
        } else if pos + 1 < n && text[pos + 1] == 92 {
            (TokenKind::Literal, quoted_spec(text, pos + 1, 39))
        } else {
            (TokenKind::Punct, pos + 1)
        }
    } else if b == 47 && pos + 1 < n && text[pos + 1] == 47 {
        (TokenKind::Comment, comment_spec(text, pos + 2, false, 1))
    } else if b == 47 && pos + 1 < n && text[pos + 1] == 42 {
        (TokenKind::Comment, comment_spec(text, pos + 2, true, 1))
    } else {
        (TokenKind::Punct, pos + 1)
    }
}

/// The tokens of `text` from byte `pos` on.
pub open spec fn lex_from(text: Seq<u8>, pos: int) -> Seq<Token>
    decreases text.len() - pos,
{
    if pos < 0 || pos >= text.len() {
        seq![]
    } else {
        let r = scan_spec(text, pos);
        if r.1 <= pos || r.1 > text.len() {
            seq![]
        } else {
            seq![Token { kind: r.0, start: pos as usize, end: r.1 as usize }] + lex_from(text, r.1)
        }
    }
}

/// The tokens of `text`.
pub closed spec fn lex(text: Seq<u8>) -> Seq<Token> {
    lex_from(text, 0)
}

fn space_byte(b: u8) -> (r: bool)
    ensures
        r == is_space(b),
{
    b == 32 || b == 9 || b == 10 || b == 13
}

fn ident_start_byte(b: u8) -> (r: bool)
    ensures
        r == is_ident_start(b),
{
    (97 <= b && b <= 122) || (65 <= b && b <= 90) || b == 95 || b >= 128
}

fn ident_continue_byte(b: u8) -> (r: bool)
    ensures
        r == is_ident_continue(b),
{
    ident_start_byte(b) || (48 <= b && b <= 57)
}

/// The end of the run of bytes from `pos` on that satisfy the class `ident`
/// (identifier bytes) or else whitespace.
fn run_end(text: &Vec<u8>, pos: usize, ident: bool) -> (r: usize)
    requires
        pos <= text@.len(),
    ensures
        r == run_spec(text@, pos as int, ident),
        pos <= r <= text@.len(),
        forall|i: int|
            pos <= i < r ==> (if ident {
                is_ident_continue(#[trigger] text@[i])
            } else {
                is_space(text@[i])
            }),
        r < text@.len() ==> !(if ident {
            is_ident_continue(text@[r as int])
        } else {
            is_space(text@[r as int])
        }),
{
    let mut i: usize = pos;
    while i < text.len()
        invariant
            pos <= i <= text@.len(),
            run_spec(text@, i as int, ident) == run_spec(text@, pos as int, ident),
            forall|k: int|
                pos <= k < i ==> (if ident {
                    is_ident_continue(#[trigger] text@[k])
                } else {
                    is_space(text@[k])
                }),
        decreases text.len() - i,
    {
        let b = text[i];
        let ok = if ident {
            ident_continue_byte(b)
        } else {
            space_byte(b)
        };
        if !ok {
            return i;
        }
        i = i + 1;
    }
    i
}

/// The end of a quoted literal that opens at `pos` with the byte `quote`: just
/// past the closing quote, a backslash escaping the byte after it, or the end
/// of the text.
fn quoted_end(text: &Vec<u8>, pos: usize, quote: u8) -> (r: usize)
    requires
        pos < text@.len(),
    ensures
        r == quoted_spec(text@, pos + 1, quote),
        pos < r <= text@.len(),
{
    let n = text.len();
    let mut i: usize = pos + 1;
    while i < n
        invariant
            pos < i <= text@.len(),
            n == text@.len(),
            quoted_spec(text@, i as int, quote) == quoted_spec(text@, pos + 1, quote),
        decreases n - i,
    {
        let b = text[i];
        if b == quote {
            return i + 1;
        }
        if b == 92 && i + 1 < n {
            i = i + 2;
        } else {
            i = i + 1;
        }
    }
    i
}

/// The end of a comment that opens at `pos`: a line comment runs to the end of
/// the line, a block comment to its matching close, nested ones included.
fn comment_end(text: &Vec<u8>, pos: usize, block: bool) -> (r: usize)
    requires
        pos + 1 < text@.len(),
    ensures
        r == comment_spec(text@, pos + 2, block, 1),
        pos < r <= text@.len(),
{
    let n = text.len();
    let mut i: usize = pos + 2;
    let mut depth: usize = 1;
    while i < text.len()
        invariant
            pos + 2 <= i <= text@.len(),
            n == text@.len(),
            comment_spec(text@, i as int, block, depth as int) == comment_spec(text@, pos + 2, block, 1),
        decreases text.len() - i,
    {
        let b = text[i];
        if !block {
            if b == 10 {
                return i;
            }
            i = i + 1;
        } else if b == 42 && i + 1 < text.len() && text[i + 1] == 47 {
            if depth <= 1 {
                return i + 2;
            }
            depth = depth - 1;
            i = i + 2;
        } else if b == 47 && i + 1 < text.len() && text[i + 1] == 42 {
            if depth < usize::MAX {
                depth = depth + 1;
            }
            i = i + 2;
        } else {
            i = i + 1;
        }
    }
    i
}

/// The class and end of the token that starts at `pos`.
fn scan_token(text: &Vec<u8>, pos: usize) -> (r: (TokenKind, usize))
    requires
        pos < text@.len(),
    ensures
        (r.0, r.1 as int) == scan_spec(text@, pos as int),
        pos < r.1 <= text@.len(),
        r.0 == TokenKind::Whitespace ==> forall|i: int| pos <= i < r.1 ==> is_space(#[trigger] text@[i]),
        r.0 == TokenKind::Ident ==> is_ident_start(text@[pos as int]) && forall|i: int|
            pos <= i < r.1 ==> is_ident_continue(#[trigger] text@[i]),
        r.0 == TokenKind::Punct ==> r.1 == pos + 1,
{
    let b = text[pos];
    let n = text.len();
    if space_byte(b) {
        (TokenKind::Whitespace, run_end(text, pos, false))
    } else if ident_start_byte(b) {
        (TokenKind::Ident, run_end(text, pos, true))
    } else if 48 <= b && b <= 57 {
        (TokenKind::Literal, run_end(text, pos, true))
    } else if b == 34 {
        (TokenKind::Literal, quoted_end(text, pos, 34))
    } else if b == 39 {
        if pos + 1 < n && pos + 2 < n && text[pos + 1] != 92 && text[pos + 2] == 39 {
            (TokenKind::Literal, pos + 3)
        } else if pos + 1 < n && text[pos + 1] == 92 {
            (TokenKind::Literal, quoted_end(text, pos, 39))
        } else {
            (TokenKind::Punct, pos + 1)
        }
    } else if b == 47 && pos + 1 < n && text[pos + 1] == 47 {
        (TokenKind::Comment, comment_end(text, pos, false))
    } else if b == 47 && pos + 1 < n && text[pos + 1] == 42 {
        (TokenKind::Comment, comment_end(text, pos, true))
    } else {
        (TokenKind::Punct, pos + 1)
    }
}

/// Splits `text` into tokens that cover it, one after the other.
pub fn tokenize(text: &Vec<u8>) -> (toks: Vec<Token>)
    ensures
        toks@ == lex(text@),
        tokens_wf(toks@, text@.len() as int),
        forall|i: int| 0 <= i < toks@.len() ==> token_classified(text@, #[trigger] toks@[i]),
{
    let mut toks: Vec<Token> = Vec::new();
    let mut pos: usize = 0;
    while pos < text.len()
        invariant
            pos <= text@.len(),
            forall|i: int| 0 <= i < toks@.len() ==> #[trigger] toks@[i].start < toks@[i].end <= pos,
            forall|i: int, j: int|
                0 <= i < j < toks@.len() ==> #[trigger] toks@[i].end <= #[trigger] toks@[j].start,
            forall|i: int| 0 < i < toks@.len() ==> #[trigger] toks@[i].start == toks@[i - 1].end,
            toks@.len() == 0 <==> pos == 0,
            toks@.len() > 0 ==> toks@[0].start == 0 && toks@[toks@.len() - 1].end == pos,
            forall|i: int| 0 <= i < toks@.len() ==> token_classified(text@, #[trigger] toks@[i]),
            toks@ + lex_from(text@, pos as int) == lex(text@),
        decreases text.len() - pos,
    {
        let (kind, end) = scan_token(text, pos);
        let ghost old_toks = toks@;
        let tok = Token { kind, start: pos, end };
        assert(token_classified(text@, tok));
        let ghost rest = lex_from(text@, end as int);
        assert(lex_from(text@, pos as int) == seq![tok] + rest);
        toks.push(tok);
        assert(toks@ + rest =~= old_toks + (seq![tok] + rest));
        assert forall|i: int, j: int|
            0 <= i < j < toks@.len() implies #[trigger] toks@[i].end <= #[trigger] toks@[j].start by {
            if j == toks@.len() - 1 {
                assert(old_toks[i] == toks@[i]);
                assert(old_toks[i].start < old_toks[i].end <= pos);
            } else {
                assert(old_toks[i] == toks@[i] && old_toks[j] == toks@[j]);
            }
        }
        pos = end;
    }
    toks
}

} // verus!
