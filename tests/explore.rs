use eqextract::explore::{explore, ExploreError, Item};
use eqextract::path::{FileRef, ResolveError};
use eqextract::syntax::{pre_order, Node, NodeKind, Step};

fn file(p: &str) -> FileRef {
    FileRef::local(p.split('/').map(|s| s.as_bytes().to_vec()).collect())
}

fn node(kind: NodeKind, text: &str, path: Option<&str>, children: Vec<Node>) -> Node {
    Node {
        kind,
        text: text.as_bytes().to_vec(),
        path: path.map(|p| p.as_bytes().to_vec()),
        children,
    }
}

fn eq(text: &str) -> Node {
    node(NodeKind::Target, text, None, vec![])
}

fn inclusion(path: &str) -> Node {
    node(NodeKind::Include, "", Some(path), vec![])
}

fn import(path: &str) -> Node {
    node(NodeKind::Import, "", Some(path), vec![])
}

fn doc(children: Vec<Node>) -> Node {
    node(NodeKind::Other, "", None, children)
}

fn shown(items: &[Item]) -> Vec<(String, String)> {
    items
        .iter()
        .map(|i| {
            let path: Vec<String> =
                i.file.segments.iter().map(|s| String::from_utf8(s.clone()).unwrap()).collect();
            (path.join("/"), String::from_utf8(i.text.clone()).unwrap())
        })
        .collect()
}

fn pairs(v: &[(&str, &str)]) -> Vec<(String, String)> {
    v.iter().map(|(a, b)| (a.to_string(), b.to_string())).collect()
}

#[test]
fn included_file_is_interleaved_at_its_inclusion_point() {
    let files = vec![
        (file("main.ext"), doc(vec![eq("[[E1]]"), inclusion("parts/sub.ext")])),
        (file("parts/sub.ext"), doc(vec![eq("[[E2]]")])),
    ];
    let items = explore(&files, &file("main.ext")).ok().unwrap();
    assert_eq!(shown(&items), pairs(&[("main.ext", "[[E1]]"), ("parts/sub.ext", "[[E2]]")]));
}

#[test]
fn inclusion_before_an_equation_comes_first() {
    let files = vec![
        (file("main.typ"), doc(vec![inclusion("a"), eq("$x$"), inclusion("a"), eq("$y$")])),
        (file("a.typ"), doc(vec![eq("$a$")])),
    ];
    let items = explore(&files, &file("main.typ")).ok().unwrap();
    assert_eq!(
        shown(&items),
        pairs(&[("a.typ", "$a$"), ("main.typ", "$x$"), ("main.typ", "$y$")])
    );
}

#[test]
fn diamond_inclusion_visits_the_shared_file_once() {
    let files = vec![
        (file("a.typ"), doc(vec![eq("$a$"), inclusion("b.typ"), inclusion("c.typ")])),
        (file("b.typ"), doc(vec![inclusion("d.typ"), eq("$b$")])),
        (file("c.typ"), doc(vec![inclusion("d.typ"), eq("$c$")])),
        (file("d.typ"), doc(vec![eq("$d$")])),
    ];
    let items = explore(&files, &file("a.typ")).ok().unwrap();
    assert_eq!(
        shown(&items),
        pairs(&[("a.typ", "$a$"), ("d.typ", "$d$"), ("b.typ", "$b$"), ("c.typ", "$c$")])
    );
}

#[test]
fn mutual_inclusion_terminates_without_error() {
    let files = vec![
        (file("a.typ"), doc(vec![eq("$a$"), inclusion("b.typ")])),
        (file("b.typ"), doc(vec![import("a.typ"), eq("$b$")])),
    ];
    let items = explore(&files, &file("a.typ")).ok().unwrap();
    assert_eq!(shown(&items), pairs(&[("a.typ", "$a$"), ("b.typ", "$b$")]));
}

#[test]
fn a_file_including_itself_is_visited_once() {
    let files = vec![(file("a.typ"), doc(vec![inclusion("a.typ"), eq("$a$"), inclusion("/a")]))];
    let items = explore(&files, &file("a.typ")).ok().unwrap();
    assert_eq!(shown(&items), pairs(&[("a.typ", "$a$")]));
}

#[test]
fn no_target_nodes_gives_no_items() {
    let files = vec![
        (file("main.typ"), doc(vec![inclusion("b.typ"), node(NodeKind::Other, "text", None, vec![])])),
        (file("b.typ"), doc(vec![])),
    ];
    let items = explore(&files, &file("main.typ")).ok().unwrap();
    assert!(items.is_empty());
}

#[test]
fn nested_nodes_are_walked_in_pre_order() {
    let files = vec![
        (
            file("main.typ"),
            doc(vec![
                node(NodeKind::Target, "$outer$", None, vec![eq("$inner$")]),
                node(NodeKind::Other, "", None, vec![eq("$deep$"), inclusion("b")]),
                eq("$last$"),
            ]),
        ),
        (file("b.typ"), doc(vec![eq("$b$")])),
    ];
    let items = explore(&files, &file("main.typ")).ok().unwrap();
    assert_eq!(
        shown(&items),
        pairs(&[
            ("main.typ", "$outer$"),
            ("main.typ", "$inner$"),
            ("main.typ", "$deep$"),
            ("b.typ", "$b$"),
            ("main.typ", "$last$"),
        ])
    );
}

#[test]
fn package_and_computed_imports_are_skipped() {
    let files = vec![(
        file("main.typ"),
        doc(vec![
            import("@preview/cetz:0.3.1"),
            node(NodeKind::Import, "", None, vec![]),
            eq("$x$"),
        ]),
    )];
    let items = explore(&files, &file("main.typ")).ok().unwrap();
    assert_eq!(shown(&items), pairs(&[("main.typ", "$x$")]));
}

#[test]
fn a_file_not_given_stops_exploration() {
    let files = vec![(file("main.typ"), doc(vec![eq("$x$"), inclusion("parts/gone")]))];
    match explore(&files, &file("main.typ")) {
        Err(ExploreError::Missing(f)) => assert!(f.same(&file("parts/gone.typ"))),
        _ => panic!("expected a missing file"),
    }
}

#[test]
fn a_reference_outside_the_root_stops_exploration() {
    let files = vec![(file("main.typ"), doc(vec![eq("$x$"), inclusion("../etc/passwd")]))];
    match explore(&files, &file("main.typ")) {
        Err(ExploreError::Refused(e)) => assert_eq!(e, ResolveError::OutsideRoot),
        _ => panic!("expected a refusal"),
    }
}

#[test]
fn a_missing_entry_file_is_reported() {
    let files = vec![(file("other.typ"), doc(vec![]))];
    match explore(&files, &file("main.typ")) {
        Err(ExploreError::Missing(f)) => assert!(f.same(&file("main.typ"))),
        _ => panic!("expected a missing entry"),
    }
}

#[test]
fn exploring_twice_gives_the_same_items() {
    let files = vec![
        (file("a.typ"), doc(vec![eq("$a$"), inclusion("b.typ")])),
        (file("b.typ"), doc(vec![inclusion("a.typ"), eq("$b$")])),
    ];
    let first = explore(&files, &file("a.typ")).ok().unwrap();
    let second = explore(&files, &file("a.typ")).ok().unwrap();
    assert_eq!(shown(&first), shown(&second));
}

#[test]
fn pre_order_lists_emits_and_follows() {
    let tree = doc(vec![
        eq("$a$"),
        node(NodeKind::Other, "", None, vec![inclusion("x"), import("@p/q:1.0.0")]),
    ]);
    let mut steps = Vec::new();
    pre_order(&tree, &mut steps);
    assert_eq!(steps.len(), 2);
    assert!(matches!(&steps[0], Step::Emit(t) if t == b"$a$"));
    assert!(matches!(&steps[1], Step::Follow(p) if p == b"x"));
}
