//! Edit scripts: the text replacements that realise a planned reordering, and
//! their application to a text.

use vstd::prelude::*;

verus! {

/// One orderable field of a construct: its key and the byte range of its text.
pub struct FieldNode {
    pub key: Vec<u8>,
    pub start: usize,
    pub end: usize,
}

/// A replacement of the bytes `start..end` by `text`.
pub struct Replacement {
    pub start: usize,
    pub end: usize,
    pub text: Vec<u8>,
}

/// The replacements that realise a reordering, in text order, and the range of
/// the whole construct that they belong to.
pub struct EditScript {
    pub replacements: Vec<Replacement>,
    pub target_start: usize,
    pub target_end: usize,
}

/// The keys of the fields, in order.
pub open spec fn keys_of(fields: Seq<FieldNode>) -> Seq<Seq<u8>> {
    fields.map_values(|f: FieldNode| f.key@)
}

/// A replacement as (start, end, new text).
pub open spec fn rep_view(r: Replacement) -> (int, int, Seq<u8>) {
    (r.start as int, r.end as int, r.text@)
}

pub open spec fn reps_view(rs: Seq<Replacement>) -> Seq<(int, int, Seq<u8>)> {
    rs.map_values(|r: Replacement| rep_view(r))
}

/// The fields lie inside a text of `len` bytes, in text order, without overlap.
pub open spec fn fields_wf(fields: Seq<FieldNode>, len: int) -> bool {
    &&& forall|i: int| 0 <= i < fields.len() ==> #[trigger] fields[i].start <= fields[i].end <= len
    &&& forall|i: int, j: int|
        0 <= i < j < fields.len() ==> #[trigger] fields[i].end <= #[trigger] fields[j].start
}

/// `order` lists positions of `n` fields.
pub open spec fn order_in_range(order: Seq<usize>, n: int) -> bool {
    &&& order.len() == n
    &&& forall|i: int| 0 <= i < order.len() ==> #[trigger] order[i] < n
}

/// The replacement at position `i`: the text of the field that belongs there
/// takes the place of the field that stands there.
pub open spec fn edit_at(text: Seq<u8>, fields: Seq<FieldNode>, order: Seq<usize>, i: int) -> (
    int,
    int,
    Seq<u8>,
) {
    let f = fields[order[i] as int];
    (fields[i].start as int, fields[i].end as int, text.subrange(f.start as int, f.end as int))
}

/// The replacements for positions `i` on: one for each position whose field
/// moves, none for a position that keeps its field.
pub open spec fn edits_from(text: Seq<u8>, fields: Seq<FieldNode>, order: Seq<usize>, i: int) -> Seq<
    (int, int, Seq<u8>),
>
    decreases fields.len() - i,
{
    if i < 0 || i >= fields.len() {
        seq![]
    } else if order[i] as int != i {
        seq![edit_at(text, fields, order, i)] + edits_from(text, fields, order, i + 1)
    } else {
        edits_from(text, fields, order, i + 1)
    }
}

/// The text from byte `pos` on, with the slot of each field from position `i` on
/// holding the text of the field that `order` puts there; the bytes between the
/// fields are kept.
pub open spec fn rebuilt_from(
    text: Seq<u8>,
    fields: Seq<FieldNode>,
    order: Seq<usize>,
    i: int,
    pos: int,
) -> Seq<u8>
    decreases fields.len() - i,
{
    if i < 0 || i >= fields.len() {
        text.subrange(pos, text.len() as int)
    } else {
        text.subrange(pos, fields[i].start as int) + edit_at(text, fields, order, i).2
            + rebuilt_from(text, fields, order, i + 1, fields[i].end as int)
    }
}

/// Replacements lie inside a text of `len` bytes, in text order, without overlap.
pub open spec fn edits_wf(edits: Seq<(int, int, Seq<u8>)>, len: int) -> bool {
    &&& forall|i: int| 0 <= i < edits.len() ==> 0 <= (#[trigger] edits[i]).0 <= edits[i].1 <= len
    &&& forall|i: int, j: int| 0 <= i < j < edits.len() ==> (#[trigger] edits[i]).1 <= (
    #[trigger] edits[j]).0
}

/// `text` from `pos` on, with the replacements applied.
pub open spec fn apply_from(text: Seq<u8>, edits: Seq<(int, int, Seq<u8>)>, pos: int) -> Seq<u8>
    decreases edits.len(),
{
    if edits.len() == 0 {
        text.subrange(pos, text.len() as int)
    } else {
        text.subrange(pos, edits[0].0) + edits[0].2 + apply_from(text, edits.drop_first(), edits[0].1)
    }
}

/// Every replacement of the script for `order` replaces exactly the text of a field
/// whose position changes: bytes outside the moved fields are never touched.
pub proof fn lemma_edits_touch_only_moved_fields(
    text: Seq<u8>,
    fields: Seq<FieldNode>,
    order: Seq<usize>,
    i: int,
)
    requires
        0 <= i <= fields.len(),
        order_in_range(order, fields.len() as int),
    ensures
        forall|e: int|
            0 <= e < edits_from(text, fields, order, i).len() ==> exists|j: int|
                i <= j < fields.len() && order[j] as int != j && #[trigger] edits_from(
                    text,
                    fields,
                    order,
                    i,
                )[e] == edit_at(text, fields, order, j),
    decreases fields.len() - i,
{
    if i < fields.len() {
        lemma_edits_touch_only_moved_fields(text, fields, order, i + 1);
        let rest = edits_from(text, fields, order, i + 1);
        let cur = edits_from(text, fields, order, i);
        assert forall|e: int| 0 <= e < cur.len() implies exists|j: int|
            i <= j < fields.len() && order[j] as int != j && #[trigger] cur[e] == edit_at(
                text,
                fields,
                order,
                j,
            ) by {
            if order[i] as int != i {
                if e == 0 {
                    assert(cur[e] == edit_at(text, fields, order, i));
                } else {
                    assert(cur[e] == rest[e - 1]);
                }
            } else {
                assert(cur[e] == rest[e]);
            }
        }
    }
}

proof fn lemma_edits_from_wf(text: Seq<u8>, fields: Seq<FieldNode>, order: Seq<usize>, i: int)
    requires
        0 <= i <= fields.len(),
        fields_wf(fields, text.len() as int),
        order_in_range(order, fields.len() as int),
    ensures
        edits_wf(edits_from(text, fields, order, i), text.len() as int),
        i < fields.len() ==> forall|e: int|
            0 <= e < edits_from(text, fields, order, i).len() ==> fields[i].start <= (
            #[trigger] edits_from(text, fields, order, i)[e]).0,
    decreases fields.len() - i,
{
    if i < fields.len() {
        lemma_edits_from_wf(text, fields, order, i + 1);
        lemma_edits_touch_only_moved_fields(text, fields, order, i);
        lemma_edits_touch_only_moved_fields(text, fields, order, i + 1);
        let rest = edits_from(text, fields, order, i + 1);
        let cur = edits_from(text, fields, order, i);
        assert forall|e: int| 0 <= e < cur.len() implies fields[i].start <= (#[trigger] cur[e]).0 by {
            let j = choose|j: int|
                i <= j < fields.len() && order[j] as int != j && cur[e] == edit_at(text, fields, order, j);
            if j > i {
                assert(fields[i].end <= fields[j].start);
            }
        }
        assert forall|e: int| 0 <= e < rest.len() implies fields[i].end <= (#[trigger] rest[e]).0 by {
            let j = choose|j: int|
                i + 1 <= j < fields.len() && order[j] as int != j && rest[e] == edit_at(text, fields, order, j);
            assert(fields[i].end <= fields[j].start);
        }
        if order[i] as int != i {
            assert forall|a: int, b: int| 0 <= a < b < cur.len() implies (#[trigger] cur[a]).1 <= (
            #[trigger] cur[b]).0 by {
                assert(cur[b] == rest[b - 1]);
                if a > 0 {
                    assert(cur[a] == rest[a - 1]);
                }
            }
            assert forall|a: int| 0 <= a < cur.len() implies 0 <= (#[trigger] cur[a]).0 <= cur[a].1
                <= text.len() by {
                if a > 0 {
                    assert(cur[a] == rest[a - 1]);
                }
            }
        }
    }
}

proof fn lemma_rebuilt_shift(
    text: Seq<u8>,
    fields: Seq<FieldNode>,
    order: Seq<usize>,
    i: int,
    pos: int,
    q: int,
)
    requires
        0 <= i,
        fields_wf(fields, text.len() as int),
        order_in_range(order, fields.len() as int),
        0 <= pos <= q,
        i < fields.len() ==> q <= fields[i].start,
        q <= text.len(),
    ensures
        rebuilt_from(text, fields, order, i, pos) == text.subrange(pos, q) + rebuilt_from(
            text,
            fields,
            order,
            i,
            q,
        ),
{
    if i >= fields.len() {
        assert(text.subrange(pos, text.len() as int) =~= text.subrange(pos, q) + text.subrange(
            q,
            text.len() as int,
        ));
    } else {
        let tail = edit_at(text, fields, order, i).2 + rebuilt_from(
            text,
            fields,
            order,
            i + 1,
            fields[i].end as int,
        );
        assert(text.subrange(pos, fields[i].start as int) =~= text.subrange(pos, q) + text.subrange(
            q,
            fields[i].start as int,
        ));
        assert(text.subrange(pos, fields[i].start as int) + edit_at(text, fields, order, i).2
            + rebuilt_from(text, fields, order, i + 1, fields[i].end as int) =~= text.subrange(pos, q)
            + (text.subrange(q, fields[i].start as int) + edit_at(text, fields, order, i).2
            + rebuilt_from(text, fields, order, i + 1, fields[i].end as int)));
    }
}

proof fn lemma_apply_from_rebuilds(
    text: Seq<u8>,
    fields: Seq<FieldNode>,
    order: Seq<usize>,
    i: int,
    pos: int,
)
    requires
        0 <= i <= fields.len(),
        fields_wf(fields, text.len() as int),
        order_in_range(order, fields.len() as int),
        0 <= pos <= text.len(),
        i < fields.len() ==> pos <= fields[i].start,
    ensures
        apply_from(text, edits_from(text, fields, order, i), pos) == rebuilt_from(
            text,
            fields,
            order,
            i,
            pos,
        ),
    decreases fields.len() - i,
{
    if i < fields.len() {
        let f = fields[i];
        if i + 1 < fields.len() {
            assert(f.end <= fields[i + 1].start);
        }
        let rest = edits_from(text, fields, order, i + 1);
        if order[i] as int != i {
            let cur = edits_from(text, fields, order, i);
            assert(cur[0] == edit_at(text, fields, order, i));
            assert(cur.drop_first() =~= rest);
            lemma_apply_from_rebuilds(text, fields, order, i + 1, f.end as int);
        } else {
            lemma_apply_from_rebuilds(text, fields, order, i + 1, pos);
            lemma_rebuilt_shift(text, fields, order, i + 1, pos, f.end as int);
            assert(edit_at(text, fields, order, i).2 == text.subrange(f.start as int, f.end as int));
            assert(text.subrange(pos, f.end as int) =~= text.subrange(pos, f.start as int)
                + text.subrange(f.start as int, f.end as int));
        }
    }
}

/// Applying the script for `order` gives the source with the slot of each field
/// holding the text of the field that belongs there, and every byte outside the
/// fields (separators, comments, a rest marker, the braces) where it was.
pub proof fn lemma_script_keeps_other_bytes(text: Seq<u8>, fields: Seq<FieldNode>, order: Seq<usize>)
    requires
        fields_wf(fields, text.len() as int),
        order_in_range(order, fields.len() as int),
    ensures
        apply_from(text, edits_from(text, fields, order, 0), 0) == rebuilt_from(
            text,
            fields,
            order,
            0,
            0,
        ),
{
    lemma_apply_from_rebuilds(text, fields, order, 0, 0);
}

/// The replacements that turn the fields, in place, into the fields in `order`.
/// Each moved slot is replaced whole by the text of the field that belongs there,
/// rather than by a token-level difference of the two fields; the resulting text
/// is the same.
pub fn synthesize_edits(text: &Vec<u8>, fields: &Vec<FieldNode>, order: &Vec<usize>) -> (r: Vec<
    Replacement,
>)
    requires
        fields_wf(fields@, text@.len() as int),
        order_in_range(order@, fields@.len() as int),
    ensures
        reps_view(r@) == edits_from(text@, fields@, order@, 0),
        edits_wf(reps_view(r@), text@.len() as int),
{
    let mut r: Vec<Replacement> = Vec::new();
    let mut i: usize = 0;
    assert(reps_view(r@) + edits_from(text@, fields@, order@, 0) =~= edits_from(
        text@,
        fields@,
        order@,
        0,
    ));
    while i < fields.len()
        invariant
            fields_wf(fields@, text@.len() as int),
            order_in_range(order@, fields@.len() as int),
            i <= fields.len(),
            reps_view(r@) + edits_from(text@, fields@, order@, i as int) == edits_from(
                text@,
                fields@,
                order@,
                0,
            ),
        decreases fields.len() - i,
    {
        let o = order[i];
        let ghost rest = edits_from(text@, fields@, order@, i + 1);
        if o != i {
            let f = &fields[o];
            let t = copy_range(text, f.start, f.end);
            let rep = Replacement { start: fields[i].start, end: fields[i].end, text: t };
            let ghost before = r@;
            r.push(rep);
            assert(reps_view(r@) =~= reps_view(before).push(rep_view(rep)));
            assert(reps_view(r@) + rest =~= reps_view(before) + edits_from(
                text@,
                fields@,
                order@,
                i as int,
            ));
        }
        i = i + 1;
    }
    assert(reps_view(r@) + seq![] =~= reps_view(r@));
    proof {
        lemma_edits_from_wf(text@, fields@, order@, 0);
    }
    r
}

/// The bytes `start..end` of `text`.
pub fn copy_range(text: &Vec<u8>, start: usize, end: usize) -> (r: Vec<u8>)
    requires
        start <= end <= text@.len(),
    ensures
        r@ == text@.subrange(start as int, end as int),
{
    let mut r: Vec<u8> = Vec::new();
    append_range(&mut r, text, start, end);
    assert(r@ =~= text@.subrange(start as int, end as int));
    r
}

/// Appends the bytes `start..end` of `text` to `out`.
pub fn append_range(out: &mut Vec<u8>, text: &Vec<u8>, start: usize, end: usize)
    requires
        start <= end <= text@.len(),
    ensures
        final(out)@ == old(out)@ + text@.subrange(start as int, end as int),
{
    let mut i: usize = start;
    while i < end
        invariant
            start <= i <= end <= text@.len(),
            out@ == old(out)@ + text@.subrange(start as int, i as int),
        decreases end - i,
    {
        out.push(text[i]);
        i = i + 1;
        assert(out@ =~= old(out)@ + text@.subrange(start as int, i as int));
    }
}

/// Applies replacements given in text order, without overlap.
pub fn apply_edits(text: &Vec<u8>, edits: &Vec<Replacement>) -> (r: Vec<u8>)
    requires
        edits_wf(reps_view(edits@), text@.len() as int),
    ensures
        r@ == apply_from(text@, reps_view(edits@), 0),
{
    let ghost ev = reps_view(edits@);
    let mut out: Vec<u8> = Vec::new();
    let mut pos: usize = 0;
    let mut k: usize = 0;
    assert(ev.skip(0) =~= ev);
    assert(out@ + apply_from(text@, ev.skip(0), 0) =~= apply_from(text@, ev, 0));
    while k < edits.len()
        invariant
            ev == reps_view(edits@),
            edits_wf(ev, text@.len() as int),
            k <= edits.len(),
            pos <= text@.len(),
            k < edits.len() ==> pos <= ev[k as int].0,
            out@ + apply_from(text@, ev.skip(k as int), pos as int) == apply_from(text@, ev, 0),
        decreases edits.len() - k,
    {
        let e = &edits[k];
        let ghost rest = ev.skip(k as int);
        assert(rest[0] == ev[k as int]);
        assert(rest.drop_first() =~= ev.skip(k + 1));
        let ghost before = out@;
        append_range(&mut out, text, pos, e.start);
        let mut j: usize = 0;
        while j < e.text.len()
            invariant
                j <= e.text@.len(),
                pos <= e.start <= text@.len(),
                out@ == before + text@.subrange(pos as int, e.start as int) + e.text@.subrange(
                    0,
                    j as int,
                ),
            decreases e.text.len() - j,
        {
            out.push(e.text[j]);
            j = j + 1;
            assert(out@ =~= before + text@.subrange(pos as int, e.start as int) + e.text@.subrange(
                0,
                j as int,
            ));
        }
        assert(e.text@.subrange(0, e.text@.len() as int) =~= e.text@);
        assert(before + apply_from(text@, rest, pos as int) =~= out@ + apply_from(
            text@,
            ev.skip(k + 1),
            e.end as int,
        ));
        pos = e.end;
        k = k + 1;
    }
    assert(ev.skip(k as int).len() == 0);
    append_range(&mut out, text, pos, text.len());
    out
}

} // verus!
