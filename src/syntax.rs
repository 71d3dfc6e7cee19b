//! Locating a record construct and the declaration of the struct it names.

use vstd::prelude::*;
use crate::edit::{copy_range, fields_wf, FieldNode};
use crate::lexer::{tokens_wf, Token, TokenKind};
use crate::rank::bytes_eq;

verus! {

pub const OPEN_PAREN: u8 = 40;
pub const CLOSE_PAREN: u8 = 41;
pub const COMMA: u8 = 44;
pub const DOT: u8 = 46;
pub const COLON: u8 = 58;
pub const SEMICOLON: u8 = 59;
pub const LESS: u8 = 60;
pub const EQUALS: u8 = 61;
pub const GREATER: u8 = 62;
pub const HASH: u8 = 35;
pub const OPEN_BRACKET: u8 = 91;
pub const CLOSE_BRACKET: u8 = 93;
pub const OPEN_BRACE: u8 = 123;
pub const BAR: u8 = 124;
pub const CLOSE_BRACE: u8 = 125;

/// The two forms of record construct.
#[derive(PartialEq, Eq, Structural, Clone, Copy)]
pub enum ConstructKind {
    /// A record literal, `S { a: 1, b }`.
    RecordLit,
    /// A record pattern, `S { a: 1, ref mut b, .. }`.
    RecordPat,
}

/// A located record construct: its form, the name of the struct it names, its
/// orderable fields in source order, and the byte range of the whole construct.
pub struct Construct {
    pub kind: ConstructKind,
    pub name: Vec<u8>,
    pub fields: Vec<FieldNode>,
    pub start: usize,
    pub end: usize,
}

/// The construct is well formed in a text of `len` bytes: its fields lie in text
/// order inside its range.
pub open spec fn construct_wf(c: Construct, len: int) -> bool {
    &&& c.start <= c.end <= len
    &&& fields_wf(c.fields@, len)
    &&& forall|i: int|
        0 <= i < c.fields@.len() ==> c.start <= #[trigger] c.fields@[i].start && c.fields@[i].end
            <= c.end
}

/// Every field lies within the bytes `lo..hi`.
pub open spec fn fields_within(fields: Seq<FieldNode>, lo: int, hi: int) -> bool {
    forall|k: int| 0 <= k < fields.len() ==> lo <= #[trigger] fields[k].start && fields[k].end <= hi
}

/// A token position as an integer.
pub open spec fn opt_int(o: Option<usize>) -> Option<int> {
    match o {
        Some(k) => Some(k as int),
        None => None,
    }
}

pub open spec fn is_trivia(t: Token) -> bool {
    t.kind == TokenKind::Whitespace || t.kind == TokenKind::Comment
}

fn trivia(t: &Token) -> (r: bool)
    ensures
        r == is_trivia(*t),
{
    t.kind == TokenKind::Whitespace || t.kind == TokenKind::Comment
}

/// The first token at or after `i`, and before `limit`, that is not trivia; `limit`
/// if there is none (or `i`, where `i` is past `limit`).
pub open spec fn skip_spec(toks: Seq<Token>, i: int, limit: int) -> int
    decreases limit - i,
{
    if 0 <= i < limit && i < toks.len() && is_trivia(toks[i]) {
        skip_spec(toks, i + 1, limit)
    } else {
        i
    }
}

/// The last token before `end`, and at or after `start`, that is not trivia.
pub open spec fn last_spec(toks: Seq<Token>, start: int, end: int) -> Option<int>
    decreases end - start,
{
    if end <= start || end > toks.len() || start < 0 {
        None
    } else if !is_trivia(toks[end - 1]) {
        Some(end - 1)
    } else {
        last_spec(toks, start, end - 1)
    }
}

/// The first token at or after `i`, and before `limit`, that is not trivia; `limit`
/// if there is none.
fn skip_trivia(toks: &Vec<Token>, i: usize, limit: usize) -> (r: usize)
    requires
        i <= limit <= toks@.len(),
    ensures
        r == skip_spec(toks@, i as int, limit as int),
        i <= r <= limit,
        r < limit ==> !is_trivia(toks@[r as int]),
        forall|k: int| i <= k < r ==> is_trivia(#[trigger] toks@[k]),
{
    let mut j: usize = i;
    while j < limit && trivia(&toks[j])
        invariant
            i <= j <= limit <= toks@.len(),
            forall|k: int| i <= k < j ==> is_trivia(#[trigger] toks@[k]),
            skip_spec(toks@, j as int, limit as int) == skip_spec(toks@, i as int, limit as int),
        decreases limit - j,
    {
        j = j + 1;
    }
    j
}

/// The last token before `end`, and at or after `start`, that is not trivia.
fn last_non_trivia(toks: &Vec<Token>, start: usize, end: usize) -> (r: Option<usize>)
    requires
        start <= end <= toks@.len(),
    ensures
        opt_int(r) == last_spec(toks@, start as int, end as int),
        r matches Some(k) ==> start <= k < end && !is_trivia(toks@[k as int]),
        r matches Some(k) ==> forall|m: int| k < m < end ==> is_trivia(#[trigger] toks@[m]),
        r is None ==> forall|k: int| start <= k < end ==> is_trivia(#[trigger] toks@[k]),
{
    let mut j: usize = end;
    while j > start
        invariant
            start <= j <= end <= toks@.len(),
            forall|k: int| j <= k < end ==> is_trivia(#[trigger] toks@[k]),
            last_spec(toks@, start as int, j as int) == last_spec(toks@, start as int, end as int),
        decreases j - start,
    {
        if !trivia(&toks[j - 1]) {
            return Some(j - 1);
        }
        j = j - 1;
    }
    None
}

/// The bytes of a token.
pub open spec fn token_bytes(text: Seq<u8>, t: Token) -> Seq<u8> {
    text.subrange(t.start as int, t.end as int)
}

/// Token `i` is the punctuation byte `b`.
pub open spec fn punct_at(text: Seq<u8>, toks: Seq<Token>, i: int, b: u8) -> bool {
    0 <= i < toks.len() && toks[i].kind == TokenKind::Punct && text[toks[i].start as int] == b
}

/// Token `i` is the identifier `w`.
pub open spec fn word_at(text: Seq<u8>, toks: Seq<Token>, i: int, w: Seq<u8>) -> bool {
    0 <= i < toks.len() && toks[i].kind == TokenKind::Ident && token_bytes(text, toks[i]) == w
}

/// Token `i` is the punctuation byte `b`.
fn is_punct(text: &Vec<u8>, toks: &Vec<Token>, i: usize, b: u8) -> (r: bool)
    requires
        tokens_wf(toks@, text@.len() as int),
    ensures
        r == punct_at(text@, toks@, i as int, b),
{
    if i >= toks.len() {
        return false;
    }
    let t = toks[i];
    t.kind == TokenKind::Punct && text[t.start] == b
}

/// The text of token `i`.
fn token_text(text: &Vec<u8>, toks: &Vec<Token>, i: usize) -> (r: Vec<u8>)
    requires
        tokens_wf(toks@, text@.len() as int),
        i < toks@.len(),
    ensures
        r@ == token_bytes(text@, toks@[i as int]),
{
    copy_range(text, toks[i].start, toks[i].end)
}

/// Token `i` is the identifier `w`.
fn is_word(text: &Vec<u8>, toks: &Vec<Token>, i: usize, w: &Vec<u8>) -> (r: bool)
    requires
        tokens_wf(toks@, text@.len() as int),
    ensures
        r == word_at(text@, toks@, i as int, w@),
{
    if i >= toks.len() || toks[i].kind != TokenKind::Ident {
        return false;
    }
    let t = token_text(text, toks, i);
    bytes_eq(&t, w)
}

/// Token `i` opens a bracket; an angle bracket only where `angle` is set.
pub open spec fn opener_at(text: Seq<u8>, toks: Seq<Token>, i: int, angle: bool) -> bool {
    punct_at(text, toks, i, OPEN_PAREN) || punct_at(text, toks, i, OPEN_BRACKET) || punct_at(
        text,
        toks,
        i,
        OPEN_BRACE,
    ) || (angle && punct_at(text, toks, i, LESS))
}

/// Token `i` closes a bracket; an angle bracket only where `angle` is set.
pub open spec fn closer_at(text: Seq<u8>, toks: Seq<Token>, i: int, angle: bool) -> bool {
    punct_at(text, toks, i, CLOSE_PAREN) || punct_at(text, toks, i, CLOSE_BRACKET) || punct_at(
        text,
        toks,
        i,
        CLOSE_BRACE,
    ) || (angle && punct_at(text, toks, i, GREATER))
}

/// The bracket depth after one more opener, saturating.
pub open spec fn deeper(depth: int) -> int {
    if depth < usize::MAX {
        depth + 1
    } else {
        depth
    }
}

/// The bracket depth after one more closer, not below zero.
pub open spec fn shallower(depth: int) -> int {
    if depth > 0 {
        depth - 1
    } else {
        0
    }
}

/// Scanning from token `i` at bracket depth `depth`, the closer that ends the
/// bracket opened by token `open`.
pub open spec fn match_from(text: Seq<u8>, toks: Seq<Token>, open: int, angle: bool, i: int, depth: int) -> Option<int>
    decreases toks.len() - i,
{
    if i < 0 || i >= toks.len() {
        None
    } else if opener_at(text, toks, i, angle) {
        match_from(text, toks, open, angle, i + 1, deeper(depth))
    } else if closer_at(text, toks, i, angle) {
        if depth <= 1 {
            if i > open {
                Some(i)
            } else {
                None
            }
        } else {
            match_from(text, toks, open, angle, i + 1, depth - 1)
        }
    } else {
        match_from(text, toks, open, angle, i + 1, depth)
    }
}

/// The closer that matches the bracket opened by token `open`.
pub open spec fn match_close(text: Seq<u8>, toks: Seq<Token>, open: int, angle: bool) -> Option<int> {
    match_from(text, toks, open, angle, open, 0)
}

fn is_opener(text: &Vec<u8>, toks: &Vec<Token>, i: usize, angle: bool) -> (r: bool)
    requires
        tokens_wf(toks@, text@.len() as int),
    ensures
        r == opener_at(text@, toks@, i as int, angle),
{
    is_punct(text, toks, i, OPEN_PAREN) || is_punct(text, toks, i, OPEN_BRACKET) || is_punct(
        text,
        toks,
        i,
        OPEN_BRACE,
    ) || (angle && is_punct(text, toks, i, LESS))
}

fn is_closer(text: &Vec<u8>, toks: &Vec<Token>, i: usize, angle: bool) -> (r: bool)
    requires
        tokens_wf(toks@, text@.len() as int),
    ensures
        r == closer_at(text@, toks@, i as int, angle),
{
    is_punct(text, toks, i, CLOSE_PAREN) || is_punct(text, toks, i, CLOSE_BRACKET) || is_punct(
        text,
        toks,
        i,
        CLOSE_BRACE,
    ) || (angle && is_punct(text, toks, i, GREATER))
}

/// The bracket that closes the one opened by token `open`; angle brackets count
/// as brackets where `angle` is set.
fn matching_close(text: &Vec<u8>, toks: &Vec<Token>, open: usize, angle: bool) -> (r: Option<
    usize,
>)
    requires
        tokens_wf(toks@, text@.len() as int),
        open < toks@.len(),
    ensures
        opt_int(r) == match_close(text@, toks@, open as int, angle),
        r matches Some(c) ==> open < c < toks@.len(),
{
    let mut depth: usize = 0;
    let mut i: usize = open;
    while i < toks.len()
        invariant
            tokens_wf(toks@, text@.len() as int),
            open <= i <= toks@.len(),
            match_from(text@, toks@, open as int, angle, i as int, depth as int) == match_close(
                text@,
                toks@,
                open as int,
                angle,
            ),
        decreases toks.len() - i,
    {
        if is_opener(text, toks, i, angle) {
            if depth < usize::MAX {
                depth = depth + 1;
            }
        } else if is_closer(text, toks, i, angle) {
            if depth <= 1 {
                if i > open {
                    return Some(i);
                }
                return None;
            }
            depth = depth - 1;
        }
        i = i + 1;
    }
    None
}

/// The keywords the scanner reads.
pub open spec fn kw_ref() -> Seq<u8> {
    seq![114u8, 101u8, 102u8]
}

pub open spec fn kw_mut() -> Seq<u8> {
    seq![109u8, 117u8, 116u8]
}

pub open spec fn kw_pub() -> Seq<u8> {
    seq![112u8, 117u8, 98u8]
}

pub open spec fn kw_struct() -> Seq<u8> {
    seq![115u8, 116u8, 114u8, 117u8, 99u8, 116u8]
}

pub open spec fn kw_where() -> Seq<u8> {
    seq![119u8, 104u8, 101u8, 114u8, 101u8]
}

/// A field as (key, start, end).
pub open spec fn field_view(f: FieldNode) -> (Seq<u8>, int, int) {
    (f.key@, f.start as int, f.end as int)
}

pub open spec fn fields_view(fs: Seq<FieldNode>) -> Seq<(Seq<u8>, int, int)> {
    fs.map_values(|f: FieldNode| field_view(f))
}

pub open spec fn opt_seq<A>(o: Option<A>) -> Seq<A> {
    match o {
        Some(x) => seq![x],
        None => seq![],
    }
}

/// Past the `ref` and `mut` words of a binding that starts at token `p` and
/// ends at token `last`.
pub open spec fn modifiers_end(text: Seq<u8>, toks: Seq<Token>, p: int, last: int) -> int
    decreases last - p,
{
    if p < last && (word_at(text, toks, p, kw_ref()) || word_at(text, toks, p, kw_mut())) {
        let q = skip_spec(toks, p + 1, last);
        if p < q <= last {
            modifiers_end(text, toks, q, last)
        } else {
            p
        }
    } else {
        p
    }
}

/// Token `first` is followed, past trivia and before token `b`, by a single `:`.
pub open spec fn colon_follows(text: Seq<u8>, toks: Seq<Token>, first: int, b: int) -> bool {
    let c = skip_spec(toks, first + 1, b);
    c < b && punct_at(text, toks, c, COLON) && !(c + 1 < b && punct_at(text, toks, c + 1, COLON))
}

/// The field, as (key, start, end), that the tokens `a..b` form in a `kind`
/// construct: `None` where they are all trivia, start with `..`, or, in a pattern,
/// are not `[ref] [mut] name`. The range runs from the first to the last token
/// that is not trivia. A name followed by a single `:` is the key; otherwise the
/// key is the whole text in a literal, and the bound name in a pattern.
pub open spec fn field_of(text: Seq<u8>, toks: Seq<Token>, kind: ConstructKind, a: int, b: int) -> Option<(Seq<u8>, int, int)> {
    let first = skip_spec(toks, a, b);
    if first >= b {
        None
    } else {
        match last_spec(toks, first, b) {
            None => None,
            Some(last) => {
                let start = toks[first].start as int;
                let end = toks[last].end as int;
                if punct_at(text, toks, first, DOT) && first + 1 < b && punct_at(text, toks, first + 1, DOT) {
                    None
                } else if toks[first].kind == TokenKind::Ident && colon_follows(text, toks, first, b) {
                    Some((token_bytes(text, toks[first]), start, end))
                } else if kind == ConstructKind::RecordLit {
                    Some((text.subrange(start, end), start, end))
                } else {
                    let p = modifiers_end(text, toks, first, last);
                    if p == last && toks[p].kind == TokenKind::Ident {
                        Some((token_bytes(text, toks[p]), start, end))
                    } else {
                        None
                    }
                }
            },
        }
    }
}

spec fn f_key_is_token(text: Seq<u8>, toks: Seq<Token>, a: int, b: int, key: Seq<u8>, t: int) -> bool {
    a <= t < b && toks[t].kind == TokenKind::Ident && key == token_bytes(text, toks[t])
}

/// The field that the tokens `a..b` between two separators of a `kind` construct
/// form, with its key, or `None` where they form no orderable field (nothing, or
/// a rest marker `..`). A `name: value` entry is keyed by `name`. Otherwise a
/// literal's entry is keyed by its whole text, the shorthand `name` included, and
/// a pattern's entry `ref mut name` by `name`.
pub fn get_field_name(text: &Vec<u8>, toks: &Vec<Token>, kind: ConstructKind, a: usize, b: usize) -> (r: Option<FieldNode>)
    requires
        tokens_wf(toks@, text@.len() as int),
        a <= b <= toks@.len(),
    ensures
        r matches Some(f) ==> field_of(text@, toks@, kind, a as int, b as int) == Some(field_view(f)),
        r is None ==> field_of(text@, toks@, kind, a as int, b as int) is None,
        r matches Some(f) ==> a < b && toks@[a as int].start <= f.start <= f.end <= toks@[b - 1].end,
        r matches Some(f) ==> (exists|t: int|
            a <= t < b && toks@[t].kind == TokenKind::Ident && f.key@ == #[trigger] token_bytes(
                text@,
                toks@[t],
            )) || (kind == ConstructKind::RecordLit && f.key@ == text@.subrange(
            f.start as int,
            f.end as int,
        )),
{
    let first = skip_trivia(toks, a, b);
    if first >= b {
        return None;
    }
    let last = match last_non_trivia(toks, first, b) {
        Some(l) => l,
        None => return None,
    };
    proof {
        if a < first {
            assert(toks@[a as int].end <= toks@[first as int].start);
        }
        if last < b - 1 {
            assert(toks@[last as int].end <= toks@[b - 1].start);
            assert(toks@[b - 1].start < toks@[b - 1].end);
        }
        if first < last {
            assert(toks@[first as int].end <= toks@[last as int].start);
        }
        assert(toks@[first as int].start < toks@[first as int].end);
        assert(toks@[last as int].start < toks@[last as int].end);
        assert(toks@[a as int].start < toks@[a as int].end);
    }
    let start = toks[first].start;
    let end = toks[last].end;
    if is_punct(text, toks, first, DOT) && first + 1 < b && is_punct(text, toks, first + 1, DOT) {
        return None;
    }
    if toks[first].kind == TokenKind::Ident {
        let colon = skip_trivia(toks, first + 1, b);
        if colon < b && is_punct(text, toks, colon, COLON) && !(colon + 1 < b && is_punct(
            text,
            toks,
            colon + 1,
            COLON,
        )) {
            let key = token_text(text, toks, first);
            assert(f_key_is_token(text@, toks@, a as int, b as int, key@, first as int));
            return Some(FieldNode { key, start, end });
        }
    }
    match kind {
        ConstructKind::RecordLit => {
            let key = copy_range(text, start, end);
            Some(FieldNode { key, start, end })
        },
        ConstructKind::RecordPat => {
            let r = word_ref();
            let m = word_mut();
            let mut p: usize = first;
            while p < last && (is_word(text, toks, p, &r) || is_word(text, toks, p, &m))
                invariant
                    tokens_wf(toks@, text@.len() as int),
                    first <= p <= last < b <= toks@.len(),
                    r@ == kw_ref(),
                    m@ == kw_mut(),
                    modifiers_end(text@, toks@, p as int, last as int) == modifiers_end(
                        text@,
                        toks@,
                        first as int,
                        last as int,
                    ),
                decreases last - p,
            {
                p = skip_trivia(toks, p + 1, last);
            }
            if p == last && toks[p].kind == TokenKind::Ident {
                let key = token_text(text, toks, p);
                assert(f_key_is_token(text@, toks@, a as int, b as int, key@, p as int));
                Some(FieldNode { key, start, end })
            } else {
                None
            }
        },
    }
}

/// The fields, scanning from token `i` at bracket depth `depth` with the current
/// segment starting at token `a`: segments end at a `,` of depth zero and at `close`.
pub open spec fn fields_scan(
    text: Seq<u8>,
    toks: Seq<Token>,
    kind: ConstructKind,
    close: int,
    i: int,
    depth: int,
    a: int,
) -> Seq<(Seq<u8>, int, int)>
    decreases close - i,
{
    if i >= close {
        opt_seq(field_of(text, toks, kind, a, close))
    } else if opener_at(text, toks, i, false) {
        fields_scan(text, toks, kind, close, i + 1, deeper(depth), a)
    } else if closer_at(text, toks, i, false) {
        fields_scan(text, toks, kind, close, i + 1, shallower(depth), a)
    } else if depth == 0 && punct_at(text, toks, i, COMMA) {
        opt_seq(field_of(text, toks, kind, a, i)) + fields_scan(text, toks, kind, close, i + 1, depth, i + 1)
    } else {
        fields_scan(text, toks, kind, close, i + 1, depth, a)
    }
}

/// The fields of a `kind` construct whose braces are the tokens `open` and `close`:
/// the fields that its comma-separated segments of depth zero form, in order.
pub open spec fn fields_of(text: Seq<u8>, toks: Seq<Token>, kind: ConstructKind, open: int, close: int) -> Seq<(Seq<u8>, int, int)> {
    fields_scan(text, toks, kind, close, open + 1, 0, open + 1)
}

proof fn lemma_within_widen(fields: Seq<FieldNode>, lo: int, hi: int, hi2: int)
    requires
        fields_within(fields, lo, hi),
        hi <= hi2,
    ensures
        fields_within(fields, lo, hi2),
{
    assert forall|k: int| 0 <= k < fields.len() implies lo <= #[trigger] fields[k].start && fields[k].end <= hi2 by {
        assert(lo <= fields[k].start && fields[k].end <= hi);
    }
}

/// The orderable fields of a `kind` construct whose braces are the tokens `open`
/// and `close`, in source order.
pub fn get_fields(text: &Vec<u8>, toks: &Vec<Token>, kind: ConstructKind, open: usize, close: usize) -> (r: Vec<FieldNode>)
    requires
        tokens_wf(toks@, text@.len() as int),
        open < close < toks@.len(),
    ensures
        fields_view(r@) == fields_of(text@, toks@, kind, open as int, close as int),
        fields_wf(r@, text@.len() as int),
        fields_within(r@, toks@[open as int].end as int, toks@[close as int].start as int),
{
    let mut fields: Vec<FieldNode> = Vec::new();
    let mut depth: usize = 0;
    let mut a: usize = open + 1;
    let mut i: usize = open + 1;
    while i < close
        invariant
            tokens_wf(toks@, text@.len() as int),
            open < a <= i <= close < toks@.len(),
            fields_wf(fields@, text@.len() as int),
            fields_within(fields@, toks@[open as int].end as int, toks@[a as int].start as int),
            fields_view(fields@) + fields_scan(text@, toks@, kind, close as int, i as int, depth as int, a as int)
                == fields_of(text@, toks@, kind, open as int, close as int),
        decreases close - i,
    {
        let ghost before = fields_view(fields@);
        if is_opener(text, toks, i, false) {
            if depth < usize::MAX {
                depth = depth + 1;
            }
        } else if is_closer(text, toks, i, false) {
            if depth > 0 {
                depth = depth - 1;
            }
        } else if depth == 0 && is_punct(text, toks, i, COMMA) {
            push_field(text, toks, kind, open, a, i, &mut fields);
            assert(fields_view(fields@) + fields_scan(text@, toks@, kind, close as int, i + 1, depth as int, i + 1)
                =~= before + fields_scan(text@, toks@, kind, close as int, i as int, depth as int, a as int));
            assert(toks@[i as int].start < toks@[i as int].end);
            assert(fields_within(fields@, toks@[open as int].end as int, toks@[i as int].start as int));
            assert(toks@[i as int].end <= toks@[i + 1].start);
            proof { lemma_within_widen(fields@, toks@[open as int].end as int, toks@[i as int].start as int, toks@[i + 1].start as int); }
            a = i + 1;
        }
        i = i + 1;
    }
    let ghost before = fields_view(fields@);
    push_field(text, toks, kind, open, a, close, &mut fields);
    assert(fields_view(fields@) =~= before + fields_scan(text@, toks@, kind, close as int, i as int, depth as int, a as int));
    fields
}

/// Appends the field formed by the tokens `a..b`, if they form one.
fn push_field(text: &Vec<u8>, toks: &Vec<Token>, kind: ConstructKind, open: usize, a: usize, b: usize, fields: &mut Vec<FieldNode>)
    requires
        tokens_wf(toks@, text@.len() as int),
        open < a <= b < toks@.len(),
        fields_wf(old(fields)@, text@.len() as int),
        fields_within(old(fields)@, toks@[open as int].end as int, toks@[a as int].start as int),
    ensures
        fields_view(final(fields)@) == fields_view(old(fields)@) + opt_seq(field_of(text@, toks@, kind, a as int, b as int)),
        fields_wf(final(fields)@, text@.len() as int),
        fields_within(final(fields)@, toks@[open as int].end as int, toks@[b as int].start as int),
{
    proof {
        assert(toks@[open as int].end <= toks@[a as int].start);
        if a < b {
            assert(toks@[a as int].end <= toks@[b as int].start);
            assert(toks@[a as int].start < toks@[a as int].end);
            assert(toks@[b - 1].end <= toks@[b as int].start);
        }
    }
    let ghost before = fields@;
    assert forall|k: int| 0 <= k < before.len() implies toks@[open as int].end <= #[trigger] before[k].start
        && before[k].end <= toks@[b as int].start by {
        assert(toks@[open as int].end <= before[k].start);
        assert(before[k].end <= toks@[a as int].start);
    }
    match get_field_name(text, toks, kind, a, b) {
        Some(f) => {
            assert(toks@[b - 1].end <= toks@[b as int].start);
            assert(toks@[open as int].end <= toks@[a as int].start);
            fields.push(f);
            assert forall|i: int, j: int| 0 <= i < j < fields@.len() implies #[trigger] fields@[i].end <= #[trigger] fields@[j].start by {
                assert(before[i] == fields@[i]);
                if j < fields@.len() - 1 {
                    assert(before[j] == fields@[j]);
                    assert(before[i].end <= before[j].start);
                } else {
                    assert(toks@[open as int].end <= before[i].start);
                    assert(before[i].end <= toks@[a as int].start);
                }
            }
            assert forall|k: int| 0 <= k < fields@.len() implies toks@[open as int].end <= #[trigger] fields@[k].start
                && fields@[k].end <= toks@[b as int].start by {
                if k < before.len() {
                    assert(before[k] == fields@[k]);
                    assert(toks@[open as int].end <= before[k].start);
                } else {
                    assert(fields@[k] == f);
                }
            }
            assert(toks@[b - 1].end <= text@.len());
            assert forall|k: int| 0 <= k < fields@.len() implies #[trigger] fields@[k].start <= fields@[k].end <= text@.len() by {
                if k < before.len() {
                    assert(before[k] == fields@[k]);
                    assert(before[k].start <= before[k].end <= text@.len());
                } else {
                    assert(fields@[k] == f);
                }
            }
            assert(fields_wf(fields@, text@.len() as int));
            assert(fields_within(fields@, toks@[open as int].end as int, toks@[b as int].start as int));
            assert(fields_view(fields@) =~= fields_view(before) + opt_seq(field_of(text@, toks@, kind, a as int, b as int)));
        },
        None => {
            assert(fields@ == before);
            assert(fields_view(fields@) =~= fields_view(before) + opt_seq(field_of(text@, toks@, kind, a as int, b as int)));
            assert(fields_within(fields@, toks@[open as int].end as int, toks@[b as int].start as int));
        },
    }
}

/// Token `j` is the first token at or after `i` that is not trivia (the token
/// count where there is none).
pub open spec fn next_significant(toks: Seq<Token>, i: int, j: int) -> bool {
    &&& i <= j <= toks.len()
    &&& j < toks.len() ==> !is_trivia(toks[j])
    &&& forall|k: int| i <= k < j ==> is_trivia(#[trigger] toks[k])
}

/// Token `j` is the last token before `i` that is not trivia.
pub open spec fn prev_significant(toks: Seq<Token>, i: int, j: int) -> bool {
    &&& 0 <= j < i <= toks.len()
    &&& !is_trivia(toks[j])
    &&& forall|k: int| j < k < i ==> is_trivia(#[trigger] toks[k])
}

/// The construct with path token `path` and closing brace `close` stands where a
/// pattern stands: after `let`, or before `=` (not `==`), `=>`, `|` or `if`.
pub open spec fn in_pattern_context(text: Seq<u8>, toks: Seq<Token>, path: int, close: int) -> bool {
    ||| exists|j: int|
        #[trigger] next_significant(toks, close + 1, j) && ((punct_at(text, toks, j, EQUALS)
            && !punct_at(text, toks, j + 1, EQUALS)) || (punct_at(text, toks, j, COLON)
            && !punct_at(text, toks, j + 1, COLON)) || punct_at(text, toks, j, BAR) || word_at(
            text,
            toks,
            j,
            seq![105u8, 102u8],
        ))
    ||| exists|j: int|
        #[trigger] prev_significant(toks, path, j) && (word_at(
            text,
            toks,
            j,
            seq![108u8, 101u8, 116u8],
        ) || word_at(text, toks, j, seq![102u8, 111u8, 114u8]))
}

/// The form of the construct whose path starts at token `path` and whose closing
/// brace is token `close`.
pub fn construct_kind(text: &Vec<u8>, toks: &Vec<Token>, path: usize, close: usize) -> (r: ConstructKind)
    requires
        tokens_wf(toks@, text@.len() as int),
        path < close < toks@.len(),
    ensures
        r == ConstructKind::RecordPat <==> in_pattern_context(text@, toks@, path as int, close as int),
{
    let n = toks.len();
    let next = skip_trivia(toks, close + 1, n);
    assert forall|j: int| #[trigger] next_significant(toks@, close + 1, j) implies j == next by {
        if j < next {
            assert(is_trivia(toks@[j]));
        } else if j > next {
            assert(is_trivia(toks@[next as int]));
        }
    }
    let prev = last_non_trivia(toks, 0, path);
    assert forall|j: int| #[trigger] prev_significant(toks@, path as int, j) implies prev == Some(j as usize) by {
        match prev {
            Some(p) => {
                if j < p {
                    assert(is_trivia(toks@[p as int]));
                } else if j > p {
                    assert(is_trivia(toks@[j]));
                }
            },
            None => {
                assert(is_trivia(toks@[j]));
            },
        }
    }
    let word_if = word_if();
    let word_let = word_let();
    let after = (is_punct(text, toks, next, EQUALS) && !(next + 1 < n && is_punct(
        text,
        toks,
        next + 1,
        EQUALS,
    ))) || (is_punct(text, toks, next, COLON) && !(next + 1 < n && is_punct(
        text,
        toks,
        next + 1,
        COLON,
    ))) || is_punct(text, toks, next, BAR) || is_word(text, toks, next, &word_if);
    let word_for = word_for();
    let before = match prev {
        Some(p) => is_word(text, toks, p, &word_let) || is_word(text, toks, p, &word_for),
        None => false,
    };
    proof {
        assert(next_significant(toks@, close + 1, next as int));
        if let Some(p) = prev {
            assert(prev_significant(toks@, path as int, p as int));
        }
    }
    if after || before {
        ConstructKind::RecordPat
    } else {
        ConstructKind::RecordLit
    }
}

/// The first token at or after `t` that ends past byte `offset`.
pub open spec fn tok_index_at(toks: Seq<Token>, offset: int, t: int) -> int
    decreases toks.len() - t,
{
    if 0 <= t < toks.len() && toks[t].end <= offset {
        tok_index_at(toks, offset, t + 1)
    } else {
        t
    }
}

/// The last segment of the path `ident (:: ident)*` whose segment `last` is given.
pub open spec fn path_last(text: Seq<u8>, toks: Seq<Token>, last: int) -> int
    decreases toks.len() - last,
{
    if 0 <= last && toks.len() - last > 3 && punct_at(text, toks, last + 1, COLON) && punct_at(
        text,
        toks,
        last + 2,
        COLON,
    ) && toks[last + 3].kind == TokenKind::Ident {
        path_last(text, toks, last + 3)
    } else {
        last
    }
}

/// The form that `construct_kind` gives.
pub open spec fn kind_at(text: Seq<u8>, toks: Seq<Token>, path: int, close: int) -> ConstructKind {
    if in_pattern_context(text, toks, path, close) {
        ConstructKind::RecordPat
    } else {
        ConstructKind::RecordLit
    }
}

/// A construct as (kind, name, fields, start, end).
pub open spec fn construct_view(c: Construct) -> (ConstructKind, Seq<u8>, Seq<(Seq<u8>, int, int)>, int, int) {
    (c.kind, c.name@, fields_view(c.fields@), c.start as int, c.end as int)
}

/// The construct at byte `offset`: the token there must be an identifier that
/// starts a path `ident (:: ident)*` followed, past trivia, by `{` with a matching
/// `}`. Its name is the last path segment, its range runs from the path to the
/// closing brace.
pub closed spec fn construct_at(text: Seq<u8>, toks: Seq<Token>, offset: int) -> Option<(ConstructKind, Seq<u8>, Seq<(Seq<u8>, int, int)>, int, int)> {
    let n = toks.len() as int;
    let t = tok_index_at(toks, offset, 0);
    if t >= n || toks[t].kind != TokenKind::Ident {
        None
    } else {
        let last = path_last(text, toks, t);
        let open = skip_spec(toks, last + 1, n);
        if !punct_at(text, toks, open, OPEN_BRACE) {
            None
        } else {
            match match_close(text, toks, open, false) {
                None => None,
                Some(close) => if !punct_at(text, toks, close, CLOSE_BRACE) {
                    None
                } else {
                    let kind = kind_at(text, toks, t, close);
                    Some((kind, token_bytes(text, toks[last]), fields_of(text, toks, kind, open, close), toks[t].start as int, toks[close].end as int))
                },
            }
        }
    }
}

/// The record construct whose path covers the byte `offset`: the path, a brace
/// and the fields up to the matching brace.
pub fn find_construct(text: &Vec<u8>, toks: &Vec<Token>, offset: usize) -> (r: Option<Construct>)
    requires
        tokens_wf(toks@, text@.len() as int),
    ensures
        match r {
            Some(c) => construct_at(text@, toks@, offset as int) == Some(construct_view(c)),
            None => construct_at(text@, toks@, offset as int) is None,
        },
        r matches Some(c) ==> construct_wf(c, text@.len() as int),
{
    let n = toks.len();
    let mut t: usize = 0;
    while t < n && toks[t].end <= offset
        invariant
            t <= n == toks@.len(),
            tok_index_at(toks@, offset as int, t as int) == tok_index_at(toks@, offset as int, 0),
        decreases n - t,
    {
        t = t + 1;
    }
    if t >= n || toks[t].kind != TokenKind::Ident {
        return None;
    }
    let mut last: usize = t;
    while n - last > 3 && is_punct(text, toks, last + 1, COLON) && is_punct(text, toks, last + 2, COLON)
        && toks[last + 3].kind == TokenKind::Ident
        invariant
            tokens_wf(toks@, text@.len() as int),
            t <= last < n == toks@.len(),
            toks@[last as int].kind == TokenKind::Ident,
            path_last(text@, toks@, last as int) == path_last(text@, toks@, t as int),
        decreases n - last,
    {
        last = last + 3;
    }
    let open = skip_trivia(toks, last + 1, n);
    if !is_punct(text, toks, open, OPEN_BRACE) {
        return None;
    }
    let close = match matching_close(text, toks, open, false) {
        Some(c) => c,
        None => return None,
    };
    if !is_punct(text, toks, close, CLOSE_BRACE) {
        return None;
    }
    let kind = construct_kind(text, toks, t, close);
    let fields = get_fields(text, toks, kind, open, close);
    let name = token_text(text, toks, last);
    assert(word_at(text@, toks@, last as int, name@));
    proof {
        assert(toks@[t as int].end <= toks@[open as int].start);
        assert(toks@[t as int].start < toks@[t as int].end);
        assert(toks@[open as int].start < toks@[open as int].end);
        assert(toks@[close as int].start < toks@[close as int].end);
    }
    let c = Construct { kind, name, fields, start: toks[t].start, end: toks[close].end };
    assert forall|i: int| 0 <= i < c.fields@.len() implies c.start <= #[trigger] c.fields@[i].start
        && c.fields@[i].end <= c.end by {
        assert(toks@[open as int].end <= c.fields@[i].start);
    }
    assert(word_at(text@, toks@, last as int, c.name@));
    Some(c)
}

/// Past the attributes `#[..]` and the visibility `pub`, `pub(..)` that start at
/// token `p` of a declared field ending before token `b`; `None` where an attribute
/// or visibility is not closed inside the field.
pub open spec fn decl_prefix_end(text: Seq<u8>, toks: Seq<Token>, p: int, b: int) -> Option<int>
    decreases b - p,
{
    if p < 0 || p >= b {
        Some(p)
    } else if punct_at(text, toks, p, HASH) {
        let q = skip_spec(toks, p + 1, b);
        if !punct_at(text, toks, q, OPEN_BRACKET) {
            None
        } else {
            match match_close(text, toks, q, false) {
                None => None,
                Some(c) => if c >= b {
                    None
                } else {
                    let p2 = skip_spec(toks, c + 1, b);
                    if p < p2 <= b {
                        decl_prefix_end(text, toks, p2, b)
                    } else {
                        None
                    }
                },
            }
        }
    } else if word_at(text, toks, p, kw_pub()) {
        let q = skip_spec(toks, p + 1, b);
        if punct_at(text, toks, q, OPEN_PAREN) {
            match match_close(text, toks, q, false) {
                None => None,
                Some(c) => if c >= b {
                    None
                } else {
                    let p2 = skip_spec(toks, c + 1, b);
                    if p < p2 <= b {
                        decl_prefix_end(text, toks, p2, b)
                    } else {
                        None
                    }
                },
            }
        } else if p < q <= b {
            decl_prefix_end(text, toks, q, b)
        } else {
            None
        }
    } else {
        Some(p)
    }
}

/// The token that names the field declared by the tokens `a..b`: the identifier
/// past attributes and visibility, where a `:` follows it.
pub open spec fn decl_field_of(text: Seq<u8>, toks: Seq<Token>, a: int, b: int) -> Option<int> {
    match decl_prefix_end(text, toks, skip_spec(toks, a, b), b) {
        None => None,
        Some(p) => if p < b && toks[p].kind == TokenKind::Ident && punct_at(
            text,
            toks,
            skip_spec(toks, p + 1, b),
            COLON,
        ) {
            Some(p)
        } else {
            None
        },
    }
}

/// The declared name, if any, of the tokens `a..b`.
pub open spec fn name_opt(text: Seq<u8>, toks: Seq<Token>, a: int, b: int) -> Seq<Seq<u8>> {
    match decl_field_of(text, toks, a, b) {
        Some(k) => seq![token_bytes(text, toks[k])],
        None => seq![],
    }
}

/// The declared names, scanning from token `i` at depth `depth` (angle brackets
/// count) with the current segment starting at token `a`.
pub open spec fn names_scan(text: Seq<u8>, toks: Seq<Token>, close: int, i: int, depth: int, a: int) -> Seq<Seq<u8>>
    decreases close - i,
{
    if i >= close {
        name_opt(text, toks, a, close)
    } else if opener_at(text, toks, i, true) {
        names_scan(text, toks, close, i + 1, deeper(depth), a)
    } else if closer_at(text, toks, i, true) {
        names_scan(text, toks, close, i + 1, shallower(depth), a)
    } else if depth == 0 && punct_at(text, toks, i, COMMA) {
        name_opt(text, toks, a, i) + names_scan(text, toks, close, i + 1, depth, i + 1)
    } else {
        names_scan(text, toks, close, i + 1, depth, a)
    }
}

/// The names declared in the struct body that opens at token `open`, in order;
/// `None` where the body is not closed.
pub open spec fn body_names(text: Seq<u8>, toks: Seq<Token>, open: int) -> Option<Seq<Seq<u8>>> {
    match match_close(text, toks, open, true) {
        None => None,
        Some(close) => Some(names_scan(text, toks, close, open + 1, 0, open + 1)),
    }
}

/// The first `{` or `;` at or after token `k`, past a `where` clause.
pub open spec fn where_end(text: Seq<u8>, toks: Seq<Token>, k: int) -> int
    decreases toks.len() - k,
{
    if 0 <= k < toks.len() && !punct_at(text, toks, k, OPEN_BRACE) && !punct_at(text, toks, k, SEMICOLON) {
        where_end(text, toks, k + 1)
    } else {
        k
    }
}

/// What a `struct` declaration at token `i` gives for the name `name`: `None`
/// where token `i` does not start `struct name`, or where no body, `;` or `(`
/// follows the name (past generics and a `where` clause); `Some(None)` where the
/// generics or body are not closed; else `Some(Some(names))`, no names for a unit
/// or tuple struct.
pub open spec fn struct_at(text: Seq<u8>, toks: Seq<Token>, name: Seq<u8>, i: int) -> Option<Option<Seq<Seq<u8>>>> {
    let n = toks.len() as int;
    if !word_at(text, toks, i, kw_struct()) {
        None
    } else {
        let j = skip_spec(toks, i + 1, n);
        if !word_at(text, toks, j, name) {
            None
        } else {
            let k0 = skip_spec(toks, j + 1, n);
            let k1 = if punct_at(text, toks, k0, LESS) {
                match match_close(text, toks, k0, true) {
                    None => -1,
                    Some(c) => skip_spec(toks, c + 1, n),
                }
            } else {
                k0
            };
            if k1 < 0 {
                Some(None)
            } else {
                let k = if word_at(text, toks, k1, kw_where()) {
                    where_end(text, toks, k1)
                } else {
                    k1
                };
                if punct_at(text, toks, k, OPEN_BRACE) {
                    Some(body_names(text, toks, k))
                } else if punct_at(text, toks, k, SEMICOLON) || punct_at(text, toks, k, OPEN_PAREN) {
                    Some(Some(seq![]))
                } else {
                    None
                }
            }
        }
    }
}

/// The first `struct name` declaration at or after token `i`.
pub open spec fn struct_search(text: Seq<u8>, toks: Seq<Token>, name: Seq<u8>, i: int) -> Option<Seq<Seq<u8>>>
    decreases toks.len() - i,
{
    if i < 0 || i >= toks.len() {
        None
    } else {
        match struct_at(text, toks, name, i) {
            Some(r) => r,
            None => struct_search(text, toks, name, i + 1),
        }
    }
}

/// The declared field names of the first `struct name` in the tokens.
pub closed spec fn struct_decl(text: Seq<u8>, toks: Seq<Token>, name: Seq<u8>) -> Option<Seq<Seq<u8>>> {
    struct_search(text, toks, name, 0)
}

/// The token that names the field declared by the tokens `a..b` of a struct body,
/// past its attributes and visibility.
fn declared_field_name(text: &Vec<u8>, toks: &Vec<Token>, a: usize, b: usize) -> (r: Option<usize>)
    requires
        tokens_wf(toks@, text@.len() as int),
        a <= b <= toks@.len(),
    ensures
        opt_int(r) == decl_field_of(text@, toks@, a as int, b as int),
        r matches Some(k) ==> a <= k < b && toks@[k as int].kind == TokenKind::Ident,
{
    let vis = word_pub();
    let mut p = skip_trivia(toks, a, b);
    let ghost p0 = p as int;
    let mut stop = false;
    while p < b && !stop
        invariant
            stop ==> decl_prefix_end(text@, toks@, p as int, b as int) == Some(p as int),
            tokens_wf(toks@, text@.len() as int),
            a <= p <= b <= toks@.len(),
            vis@ == kw_pub(),
            p0 == skip_spec(toks@, a as int, b as int),
            decl_prefix_end(text@, toks@, p as int, b as int) == decl_prefix_end(text@, toks@, p0, b as int),
        decreases (b - p) * 2 + if stop { 0int } else { 1int },
    {
        if is_punct(text, toks, p, HASH) {
            let q = skip_trivia(toks, p + 1, b);
            if !is_punct(text, toks, q, OPEN_BRACKET) {
                return None;
            }
            match matching_close(text, toks, q, false) {
                Some(c) => {
                    if c >= b {
                        return None;
                    }
                    p = skip_trivia(toks, c + 1, b);
                },
                None => return None,
            }
        } else if is_word(text, toks, p, &vis) {
            let q = skip_trivia(toks, p + 1, b);
            if is_punct(text, toks, q, OPEN_PAREN) {
                match matching_close(text, toks, q, false) {
                    Some(c) => {
                        if c >= b {
                            return None;
                        }
                        p = skip_trivia(toks, c + 1, b);
                    },
                    None => return None,
                }
            } else {
                p = q;
            }
        } else {
            stop = true;
        }
    }
    if p < b && toks[p].kind == TokenKind::Ident {
        let q = skip_trivia(toks, p + 1, b);
        if is_punct(text, toks, q, COLON) {
            return Some(p);
        }
    }
    None
}

/// Each name is the text of an identifier token.
pub open spec fn names_are_idents(text: Seq<u8>, toks: Seq<Token>, names: Seq<Vec<u8>>) -> bool {
    forall|k: int|
        0 <= k < names.len() ==> exists|t: int|
            0 <= t < toks.len() && toks[t].kind == TokenKind::Ident && (#[trigger] names[k])@
                == token_bytes(text, toks[t])
}

/// The names of the fields declared in the struct body that opens at token `open`,
/// in declaration order.
fn declared_names(text: &Vec<u8>, toks: &Vec<Token>, open: usize) -> (r: Option<Vec<Vec<u8>>>)
    requires
        tokens_wf(toks@, text@.len() as int),
        open < toks@.len(),
    ensures
        match r {
            Some(d) => body_names(text@, toks@, open as int) == Some(crate::rank::names_view(d@)),
            None => body_names(text@, toks@, open as int) is None,
        },
        r matches Some(d) ==> d@.len() < toks@.len() && names_are_idents(text@, toks@, d@),
{
    let close = match matching_close(text, toks, open, true) {
        Some(c) => c,
        None => return None,
    };
    let mut names: Vec<Vec<u8>> = Vec::new();
    let mut depth: usize = 0;
    let mut a: usize = open + 1;
    let mut i: usize = open + 1;
    while i < close
        invariant
            tokens_wf(toks@, text@.len() as int),
            open < a <= i <= close < toks@.len(),
            names@.len() <= a,
            names_are_idents(text@, toks@, names@),
            crate::rank::names_view(names@) + names_scan(text@, toks@, close as int, i as int, depth as int, a as int)
                == names_scan(text@, toks@, close as int, open + 1, 0, open + 1),
        decreases close - i,
    {
        let ghost before = crate::rank::names_view(names@);
        if is_opener(text, toks, i, true) {
            if depth < usize::MAX {
                depth = depth + 1;
            }
        } else if is_closer(text, toks, i, true) {
            if depth > 0 {
                depth = depth - 1;
            }
        } else if depth == 0 && is_punct(text, toks, i, COMMA) {
            if let Some(k) = declared_field_name(text, toks, a, i) {
                push_name(text, toks, k, &mut names);
            }
            assert(crate::rank::names_view(names@) + names_scan(text@, toks@, close as int, i + 1, depth as int, i + 1)
                =~= before + names_scan(text@, toks@, close as int, i as int, depth as int, a as int));
            a = i + 1;
        }
        i = i + 1;
    }
    let ghost before = crate::rank::names_view(names@);
    if let Some(k) = declared_field_name(text, toks, a, close) {
        push_name(text, toks, k, &mut names);
    }
    assert(crate::rank::names_view(names@) =~= before + names_scan(text@, toks@, close as int, i as int, depth as int, a as int));
    Some(names)
}

fn push_name(text: &Vec<u8>, toks: &Vec<Token>, k: usize, names: &mut Vec<Vec<u8>>)
    requires
        tokens_wf(toks@, text@.len() as int),
        k < toks@.len(),
        toks@[k as int].kind == TokenKind::Ident,
        names_are_idents(text@, toks@, old(names)@),
    ensures
        names_are_idents(text@, toks@, final(names)@),
        final(names)@ == old(names)@.push(final(names)@.last()),
        final(names)@.last()@ == token_bytes(text@, toks@[k as int]),
        crate::rank::names_view(final(names)@) == crate::rank::names_view(old(names)@).push(token_bytes(text@, toks@[k as int])),
{
    let ghost before = names@;
    names.push(token_text(text, toks, k));
    assert forall|j: int| 0 <= j < names@.len() implies exists|t: int|
        0 <= t < toks@.len() && toks@[t].kind == TokenKind::Ident && (#[trigger] names@[j])@
            == token_bytes(text@, toks@[t]) by {
        if j < before.len() {
            assert(names@[j] == before[j]);
        } else {
            assert(names@[j]@ == token_bytes(text@, toks@[k as int]));
        }
    }
    assert(crate::rank::names_view(names@) =~= crate::rank::names_view(before).push(token_bytes(text@, toks@[k as int])));
}

/// The declared field names of the struct called `name`, in declaration order: the
/// first `struct name` declaration in the text. A unit or tuple struct declares no
/// named field. `None` where no such struct is declared.
pub fn struct_definition(text: &Vec<u8>, toks: &Vec<Token>, name: &Vec<u8>) -> (r: Option<Vec<Vec<u8>>>)
    requires
        tokens_wf(toks@, text@.len() as int),
    ensures
        match r {
            Some(d) => struct_decl(text@, toks@, name@) == Some(crate::rank::names_view(d@)),
            None => struct_decl(text@, toks@, name@) is None,
        },
        r matches Some(d) ==> d@.len() < toks@.len(),
{
    let kw = word_struct();
    let kw_w = word_where();
    let n = toks.len();
    let mut i: usize = 0;
    while i < n
        invariant
            tokens_wf(toks@, text@.len() as int),
            i <= n == toks@.len(),
            kw@ == kw_struct(),
            kw_w@ == kw_where(),
            struct_search(text@, toks@, name@, i as int) == struct_decl(text@, toks@, name@),
        decreases n - i,
    {
        if is_word(text, toks, i, &kw) {
            let j = skip_trivia(toks, i + 1, n);
            if is_word(text, toks, j, name) {
                let mut k = skip_trivia(toks, j + 1, n);
                if is_punct(text, toks, k, LESS) {
                    match matching_close(text, toks, k, true) {
                        Some(c) => {
                            k = skip_trivia(toks, c + 1, n);
                        },
                        None => return None,
                    }
                }
                let ghost k1 = k as int;
                if is_word(text, toks, k, &kw_w) {
                    while k < n && !is_punct(text, toks, k, OPEN_BRACE) && !is_punct(text, toks, k, SEMICOLON)
                        invariant
                            tokens_wf(toks@, text@.len() as int),
                            k <= n == toks@.len(),
                            where_end(text@, toks@, k as int) == where_end(text@, toks@, k1),
                        decreases n - k,
                    {
                        k = k + 1;
                    }
                }
                if is_punct(text, toks, k, OPEN_BRACE) {
                    return declared_names(text, toks, k);
                }
                if is_punct(text, toks, k, SEMICOLON) || is_punct(text, toks, k, OPEN_PAREN) {
                    return Some(Vec::new());
                }
            }
        }
        i = i + 1;
    }
    None
}

fn word_ref() -> (r: Vec<u8>)
    ensures
        r@ == kw_ref(),
{
    let r: Vec<u8> = vec![114, 101, 102];
    assert(r@ =~= kw_ref());
    r
}

fn word_mut() -> (r: Vec<u8>)
    ensures
        r@ == kw_mut(),
{
    let r: Vec<u8> = vec![109, 117, 116];
    assert(r@ =~= kw_mut());
    r
}

fn word_where() -> (r: Vec<u8>)
    ensures
        r@ == kw_where(),
{
    let r: Vec<u8> = vec![119, 104, 101, 114, 101];
    assert(r@ =~= kw_where());
    r
}

fn word_for() -> (r: Vec<u8>)
    ensures
        r@ == seq![102u8, 111u8, 114u8],
{
    let r: Vec<u8> = vec![102, 111, 114];
    assert(r@ =~= seq![102u8, 111u8, 114u8]);
    r
}

fn word_let() -> (r: Vec<u8>)
    ensures
        r@ == seq![108u8, 101u8, 116u8],
{
    let r: Vec<u8> = vec![108, 101, 116];
    assert(r@ =~= seq![108u8, 101u8, 116u8]);
    r
}

fn word_if() -> (r: Vec<u8>)
    ensures
        r@ == seq![105u8, 102u8],
{
    let r: Vec<u8> = vec![105, 102];
    assert(r@ =~= seq![105u8, 102u8]);
    r
}

fn word_pub() -> (r: Vec<u8>)
    ensures
        r@ == kw_pub(),
{
    let r: Vec<u8> = vec![112, 117, 98];
    assert(r@ =~= kw_pub());
    r
}

fn word_struct() -> (r: Vec<u8>)
    ensures
        r@ == kw_struct(),
{
    let r: Vec<u8> = vec![115, 116, 114, 117, 99, 116];
    assert(r@ =~= kw_struct());
    r
}

} // verus!
