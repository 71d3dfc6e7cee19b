//! The assist: reorder the fields of the record construct at a cursor to follow
//! the declaration order of the struct it names.

use vstd::prelude::*;
use crate::edit::{
    edits_from, edits_wf, fields_wf, keys_of, order_in_range, reps_view, synthesize_edits,
    EditScript, FieldNode,
};
use crate::lexer::{lex, tokenize};
use crate::plan::{identity, is_stable_sort, plan_reorder, positions};
use crate::rank::{compute_fields_ranks, names_view, ranks_of, UNRANKED};
use crate::syntax::{construct_at, construct_view, find_construct, struct_decl, struct_definition, Construct};

verus! {

/// `s` reorders `fields` of `text` into their stable sorted order by rank among
/// the declared names `decl`, moving at least one field, and reports the range
/// `target_start..target_end`.
pub open spec fn is_reorder_script(
    text: Seq<u8>,
    fields: Seq<FieldNode>,
    decl: Seq<Seq<u8>>,
    s: EditScript,
) -> bool {
    exists|order: Seq<usize>|
        #![trigger edits_from(text, fields, order, 0)]
        {
            &&& order_in_range(order, fields.len() as int)
            &&& is_stable_sort(ranks_of(decl, keys_of(fields)), positions(order))
            &&& positions(order) != identity(fields.len())
            &&& reps_view(s.replacements@) == edits_from(text, fields, order, 0)
        }
}

/// Reorders `fields` of `text` by the declared names `decl`. `None` where the
/// fields already stand in their stable sorted order (no fields at all included);
/// otherwise the replacements that put each field's text where it belongs,
/// reporting `target_start..target_end` as the construct's range.
pub fn reorder(
    text: &Vec<u8>,
    fields: &Vec<FieldNode>,
    decl: &Vec<Vec<u8>>,
    target_start: usize,
    target_end: usize,
) -> (r: Option<EditScript>)
    requires
        fields_wf(fields@, text@.len() as int),
        decl@.len() < UNRANKED,
    ensures
        r is None <==> is_stable_sort(
            ranks_of(names_view(decl@), keys_of(fields@)),
            identity(fields@.len()),
        ),
        r matches Some(s) ==> s.target_start == target_start && s.target_end == target_end
            && is_reorder_script(text@, fields@, names_view(decl@), s) && edits_wf(
            reps_view(s.replacements@),
            text@.len() as int,
        ),
{
    let ranks = compute_fields_ranks(decl, fields);
    match plan_reorder(&ranks) {
        None => None,
        Some(order) => {
            assert(positions(order@).len() == order@.len());
            assert forall|j: int| 0 <= j < order@.len() implies #[trigger] order@[j] < fields@.len() by {
                assert(positions(order@)[j] == order@[j] as int);
            }
            let reps = synthesize_edits(text, fields, &order);
            let s = EditScript { replacements: reps, target_start, target_end };
            assert(order_in_range(order@, fields@.len() as int));
            assert(reps_view(s.replacements@) == edits_from(text@, fields@, order@, 0));
            Some(s)
        },
    }
}

/// The keys of fields given as (key, start, end).
pub open spec fn view_keys(fields: Seq<(Seq<u8>, int, int)>) -> Seq<Seq<u8>> {
    fields.map_values(|f: (Seq<u8>, int, int)| f.0)
}

/// The assist on `text` with the cursor at byte `offset`. It finds the record
/// literal or pattern whose path starts at the token under the cursor
/// (`construct_at`) and the first declaration of the struct it names
/// (`struct_decl`). It gives `None` where either is missing, or where the fields
/// already stand in their stable sorted order by declared rank (no fields at all
/// included). Otherwise it gives the script that reorders that construct's fields,
/// with the construct's range as target.
pub fn reorder_fields(text: &Vec<u8>, offset: usize) -> (r: Option<EditScript>)
    ensures
        match construct_at(text@, lex(text@), offset as int) {
            None => r is None,
            Some(cv) => match struct_decl(text@, lex(text@), cv.1) {
                None => r is None,
                Some(decl) => {
                    &&& (r is None <==> is_stable_sort(
                        ranks_of(decl, view_keys(cv.2)),
                        identity(cv.2.len()),
                    ))
                    &&& (r matches Some(s) ==> s.target_start == cv.3 && s.target_end == cv.4
                        && exists|c: Construct|
                        #[trigger] construct_view(c) == cv && is_reorder_script(
                            text@,
                            c.fields@,
                            decl,
                            s,
                        ))
                },
            },
        },
        r matches Some(s) ==> edits_wf(reps_view(s.replacements@), text@.len() as int),
{
    let toks = tokenize(text);
    let c = match find_construct(text, &toks, offset) {
        Some(c) => c,
        None => return None,
    };
    let decl = match struct_definition(text, &toks, &c.name) {
        Some(d) => d,
        None => return None,
    };
    let ghost cv = construct_view(c);
    assert(keys_of(c.fields@) =~= view_keys(cv.2));
    let r = reorder(text, &c.fields, &decl, c.start, c.end);
    proof {
        if r is Some {
            let s = r->Some_0;
            assert(construct_view(c) == cv && is_reorder_script(text@, c.fields@, names_view(decl@), s));
        }
    }
    r
}

} // verus!
