use reorder_fields::assist::{reorder, reorder_fields};
use reorder_fields::edit::{apply_edits, copy_range, synthesize_edits, FieldNode};
use reorder_fields::lexer::{tokenize, TokenKind};
use reorder_fields::plan::{plan_reorder, sorted_by_rank};
use reorder_fields::rank::{bytes_eq, compute_fields_ranks, rank_of, UNRANKED};
use reorder_fields::syntax::{find_construct, struct_definition, ConstructKind};

const CURSOR: &str = "<|>";

/// Runs the assist at the cursor marker and applies its edits, putting the
/// marker back where it was.
fn run(before: &str) -> Option<String> {
    let offset = before.find(CURSOR).expect("no cursor marker");
    let text = before.replacen(CURSOR, "", 1);
    let bytes = text.as_bytes().to_vec();
    let script = reorder_fields(&bytes, offset)?;
    assert!(script.target_start <= offset && offset < script.target_end);
    let out = apply_edits(&bytes, &script.replacements);
    let mut s = String::from_utf8(out).expect("edits keep utf-8");
    s.insert_str(offset, CURSOR);
    Some(s)
}

fn check_assist(before: &str, after: &str) {
    let actual = run(before).expect("assist not applicable");
    assert_eq!(actual, after);
    // Running the assist again on its own result finds nothing to do.
    assert!(run(&actual).is_none());
}

fn check_assist_not_applicable(before: &str) {
    assert!(run(before).is_none());
}

fn names(list: &[&str]) -> Vec<Vec<u8>> {
    list.iter().map(|s| s.as_bytes().to_vec()).collect()
}

#[test]
fn not_applicable_if_sorted() {
    check_assist_not_applicable(
        r#"
        struct Foo {
            foo: i32,
            bar: i32,
        }

        const test: Foo = <|>Foo { foo: 0, bar: 0 };
        "#,
    )
}

#[test]
fn trivial_empty_fields() {
    check_assist_not_applicable(
        r#"
        struct Foo {};
        const test: Foo = <|>Foo {}
        "#,
    )
}

#[test]
fn reorder_struct_fields() {
    check_assist(
        r#"
        struct Foo {foo: i32, bar: i32};
        const test: Foo = <|>Foo {bar: 0, foo: 1}
        "#,
        r#"
        struct Foo {foo: i32, bar: i32};
        const test: Foo = <|>Foo {foo: 1, bar: 0}
        "#,
    )
}

#[test]
fn reorder_struct_pattern() {
    check_assist(
        r#"
        struct Foo { foo: i64, bar: i64, baz: i64 }

        fn f(f: Foo) -> {
            match f {
                <|>Foo { baz: 0, ref mut bar, .. } => (),
                _ => ()
            }
        }
        "#,
        r#"
        struct Foo { foo: i64, bar: i64, baz: i64 }

        fn f(f: Foo) -> {
            match f {
                <|>Foo { ref mut bar, baz: 0, .. } => (),
                _ => ()
            }
        }
        "#,
    )
}

#[test]
fn reorder_with_extra_field() {
    check_assist(
        r#"
            struct Foo {
                foo: String,
                bar: String,
            }

            impl Foo {
                fn new() -> Foo {
                    let foo = String::new();
                    <|>Foo {
                        bar: foo.clone(),
                        extra: "Extra field",
                        foo,
                    }
                }
            }
            "#,
        r#"
            struct Foo {
                foo: String,
                bar: String,
            }

            impl Foo {
                fn new() -> Foo {
                    let foo = String::new();
                    <|>Foo {
                        foo,
                        bar: foo.clone(),
                        extra: "Extra field",
                    }
                }
            }
            "#,
    )
}

#[test]
fn extra_fields_keep_order_and_go_last() {
    check_assist(
        "struct S { a: u8, b: u8 }\nfn g() { let s = <|>S { y: 1, b: 2, x: 3, a: 4 }; }",
        "struct S { a: u8, b: u8 }\nfn g() { let s = <|>S { a: 4, b: 2, y: 1, x: 3 }; }",
    )
}

#[test]
fn only_extra_fields_not_applicable() {
    check_assist_not_applicable("struct S { a: u8 }\nfn g() { <|>S { z: 1, y: 2 }; }")
}

#[test]
fn comments_and_rest_marker_stay_in_place() {
    check_assist(
        "struct S { a: u8, b: u8, c: u8 }\nfn g(s: S) { let <|>S { /* one */ c, // two\n b: _, .. } = s; }",
        "struct S { a: u8, b: u8, c: u8 }\nfn g(s: S) { let <|>S { /* one */ b: _, // two\n c, .. } = s; }",
    )
}

#[test]
fn nested_values_and_generic_declaration() {
    check_assist(
        "pub struct P<T> {\n    #[allow(dead_code)]\n    pub(crate) first: Vec<(T, T)>,\n    pub second: T,\n}\nfn g() { <|>P { second: f(1, 2), first: vec![(1, 2)] }; }",
        "pub struct P<T> {\n    #[allow(dead_code)]\n    pub(crate) first: Vec<(T, T)>,\n    pub second: T,\n}\nfn g() { <|>P { first: vec![(1, 2)], second: f(1, 2) }; }",
    )
}

#[test]
fn qualified_path_uses_last_segment() {
    check_assist(
        "struct S { a: u8, b: u8 }\nfn g() { <|>m::S { b: 1, a: 2 }; }",
        "struct S { a: u8, b: u8 }\nfn g() { <|>m::S { a: 2, b: 1 }; }",
    )
}

#[test]
fn unknown_struct_not_applicable() {
    check_assist_not_applicable("fn g() { <|>T { b: 1, a: 2 }; }")
}

#[test]
fn cursor_outside_path_not_applicable() {
    check_assist_not_applicable("struct S { a: u8, b: u8 }\nfn g() { <|> S { b: 1, a: 2 }; }")
}

#[test]
fn rank_of_first_position_or_sentinel() {
    let decl = names(&["foo", "bar", "baz"]);
    assert_eq!(rank_of(&decl, &b"bar".to_vec()), 1);
    assert_eq!(rank_of(&decl, &b"foo".to_vec()), 0);
    assert_eq!(rank_of(&decl, &b"qux".to_vec()), UNRANKED);
    assert_eq!(rank_of(&names(&["a", "a"]), &b"a".to_vec()), 0);
    let fields: Vec<FieldNode> = ["baz", "x", "foo"]
        .iter()
        .map(|k| FieldNode { key: k.as_bytes().to_vec(), start: 0, end: 0 })
        .collect();
    assert_eq!(compute_fields_ranks(&decl, &fields), vec![2, UNRANKED, 0]);
}

#[test]
fn bytes_eq_compares_contents() {
    assert!(bytes_eq(&b"abc".to_vec(), &b"abc".to_vec()));
    assert!(!bytes_eq(&b"abc".to_vec(), &b"abd".to_vec()));
    assert!(!bytes_eq(&b"ab".to_vec(), &b"abc".to_vec()));
    assert!(bytes_eq(&Vec::new(), &Vec::new()));
}

#[test]
fn sorted_by_rank_is_stable() {
    assert_eq!(sorted_by_rank(&vec![2, 0, 1]), vec![1, 2, 0]);
    assert_eq!(
        sorted_by_rank(&vec![UNRANKED, 1, UNRANKED, 0]),
        vec![3, 1, 0, 2]
    );
    assert_eq!(sorted_by_rank(&vec![]), Vec::<usize>::new());
}

#[test]
fn plan_reorder_none_when_sorted() {
    assert!(plan_reorder(&vec![]).is_none());
    assert!(plan_reorder(&vec![0, 1, UNRANKED, UNRANKED]).is_none());
    assert_eq!(plan_reorder(&vec![1, 0]), Some(vec![1, 0]));
}

#[test]
fn edits_replace_only_moved_fields() {
    let text = b"{bb, c, aaa}".to_vec();
    let fields = vec![
        FieldNode { key: b"bb".to_vec(), start: 1, end: 3 },
        FieldNode { key: b"c".to_vec(), start: 5, end: 6 },
        FieldNode { key: b"aaa".to_vec(), start: 8, end: 11 },
    ];
    let reps = synthesize_edits(&text, &fields, &vec![2, 1, 0]);
    assert_eq!(reps.len(), 2);
    assert_eq!((reps[0].start, reps[0].end, reps[0].text.clone()), (1, 3, b"aaa".to_vec()));
    assert_eq!((reps[1].start, reps[1].end, reps[1].text.clone()), (8, 11, b"bb".to_vec()));
    assert_eq!(apply_edits(&text, &reps), b"{aaa, c, bb}".to_vec());
    assert_eq!(copy_range(&text, 1, 3), b"bb".to_vec());
}

#[test]
fn reorder_reports_target_and_edits() {
    let text = b"{bar: 0, foo: 1}".to_vec();
    let fields = vec![
        FieldNode { key: b"bar".to_vec(), start: 1, end: 7 },
        FieldNode { key: b"foo".to_vec(), start: 9, end: 15 },
    ];
    let decl = names(&["foo", "bar"]);
    let script = reorder(&text, &fields, &decl, 0, 16).expect("applicable");
    assert_eq!((script.target_start, script.target_end), (0, 16));
    assert_eq!(apply_edits(&text, &script.replacements), b"{foo: 1, bar: 0}".to_vec());
    assert!(reorder(&text, &fields, &names(&["bar", "foo"]), 0, 16).is_none());
    assert!(reorder(&text, &Vec::new(), &decl, 0, 16).is_none());
}

#[test]
fn tokenize_covers_text() {
    let text = b"a /* x */ \"s,}\" 'c' // y\n1".to_vec();
    let toks = tokenize(&text);
    let kinds: Vec<TokenKind> = toks.iter().map(|t| t.kind).collect();
    assert!(kinds == vec![
        TokenKind::Ident,
        TokenKind::Whitespace,
        TokenKind::Comment,
        TokenKind::Whitespace,
        TokenKind::Literal,
        TokenKind::Whitespace,
        TokenKind::Literal,
        TokenKind::Whitespace,
        TokenKind::Comment,
        TokenKind::Whitespace,
        TokenKind::Literal,
    ]);
    assert_eq!(toks[0].start, 0);
    assert_eq!(toks[toks.len() - 1].end, text.len());
    assert!(tokenize(&Vec::new()).is_empty());
}

#[test]
fn locate_construct_and_declaration() {
    let text = b"struct S { x: u8, y: u8 } fn g(s: S) { match s { S { y, .. } => () } }".to_vec();
    let toks = tokenize(&text);
    let offset = 49;
    assert_eq!(text[offset], b'S');
    let c = find_construct(&text, &toks, offset).expect("construct");
    assert!(c.kind == ConstructKind::RecordPat);
    assert_eq!(c.name, b"S".to_vec());
    assert_eq!(c.fields.len(), 1);
    assert_eq!(c.fields[0].key, b"y".to_vec());
    assert_eq!(struct_definition(&text, &toks, &c.name), Some(names(&["x", "y"])));
    assert_eq!(struct_definition(&text, &toks, &b"T".to_vec()), None);
    let unit = b"struct U; struct V(u8);".to_vec();
    let ut = tokenize(&unit);
    assert_eq!(struct_definition(&unit, &ut, &b"U".to_vec()), Some(Vec::new()));
    assert_eq!(struct_definition(&unit, &ut, &b"V".to_vec()), Some(Vec::new()));
}

#[test]
fn where_clause_declaration() {
    check_assist(
        "struct W<T> where T: Copy { a: T, b: T }\nfn g() { <|>W { b: 1, a: 2 }; }",
        "struct W<T> where T: Copy { a: T, b: T }\nfn g() { <|>W { a: 2, b: 1 }; }",
    )
}

#[test]
fn parameter_pattern_keys_bound_names() {
    check_assist(
        "struct S { a: u8, b: u8 }\nfn f(<|>S { ref b, a }: S) {}",
        "struct S { a: u8, b: u8 }\nfn f(<|>S { a, ref b }: S) {}",
    )
}

#[test]
fn for_loop_pattern_keys_bound_names() {
    check_assist(
        "struct S { a: u8, b: u8 }\nfn f(v: Vec<S>) { for <|>S { mut b, a } in v {} }",
        "struct S { a: u8, b: u8 }\nfn f(v: Vec<S>) { for <|>S { a, mut b } in v {} }",
    )
}

#[test]
fn struct_update_base_is_not_a_field() {
    check_assist(
        "struct S { a: u8, b: u8, c: u8 }\nfn g(s: S) { <|>S { b: 1, a: 2, ..s }; }",
        "struct S { a: u8, b: u8, c: u8 }\nfn g(s: S) { <|>S { a: 2, b: 1, ..s }; }",
    )
}
