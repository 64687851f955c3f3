use eqextract::cache::SourceCache;
use eqextract::extract::{extract, Extracted, Found, Span};
use eqextract::path::FileRef;

fn file(p: &str) -> FileRef {
    FileRef::local(p.split('/').map(|s| s.as_bytes().to_vec()).collect())
}

fn found(span: Option<(&str, usize, usize)>, plain: &str) -> Found {
    Found {
        span: span.map(|(f, start, end)| Span { file: file(f), range: Some((start, end)) }),
        plain: plain.as_bytes().to_vec(),
    }
}

fn project() -> SourceCache {
    let mut c = SourceCache::new(file("main.typ"));
    c.store(file("main.typ"), b"Let $x + y$ be.\n#include \"parts/sub.typ\"".to_vec());
    c.store(file("parts/sub.typ"), b"Then $ a^2 $ holds.".to_vec());
    c
}

fn shown(items: &[Extracted]) -> Vec<(String, String, Option<(usize, usize)>)> {
    items
        .iter()
        .map(|i| {
            let path: Vec<String> =
                i.file.segments.iter().map(|s| String::from_utf8(s.clone()).unwrap()).collect();
            (path.join("/"), String::from_utf8(i.text.clone()).unwrap(), i.range)
        })
        .collect()
}

#[test]
fn attached_spans_give_the_exact_source_text() {
    let c = project();
    let items = extract(&c, &vec![found(Some(("main.typ", 4, 11)), "x+y"), found(Some(("parts/sub.typ", 5, 12)), "a2")]);
    assert_eq!(
        shown(&items),
        vec![
            ("main.typ".to_string(), "$x + y$".to_string(), Some((4, 11))),
            ("parts/sub.typ".to_string(), "$ a^2 $".to_string(), Some((5, 12))),
        ]
    );
}

#[test]
fn exact_text_equals_the_file_slice() {
    let c = project();
    let items = extract(&c, &vec![found(Some(("parts/sub.typ", 0, 4)), "p")]);
    let text = c.text_of(&file("parts/sub.typ")).unwrap();
    let (s, e) = items[0].range.unwrap();
    assert_eq!(items[0].text, text[s..e].to_vec());
}

#[test]
fn detached_span_falls_back_to_the_entry_file() {
    let c = project();
    let items = extract(&c, &vec![found(None, "x squared")]);
    assert_eq!(shown(&items), vec![("main.typ".to_string(), "x squared".to_string(), None)]);
}

#[test]
fn unread_file_falls_back_without_stopping() {
    let c = project();
    let items = extract(
        &c,
        &vec![found(Some(("gone.typ", 0, 3)), "lost"), found(Some(("main.typ", 4, 11)), "x+y")],
    );
    assert_eq!(
        shown(&items),
        vec![
            ("gone.typ".to_string(), "lost".to_string(), None),
            ("main.typ".to_string(), "$x + y$".to_string(), Some((4, 11))),
        ]
    );
}

#[test]
fn range_beyond_the_text_falls_back() {
    let c = project();
    let items = extract(
        &c,
        &vec![found(Some(("parts/sub.typ", 5, 500)), "a2"), found(Some(("parts/sub.typ", 7, 5)), "b")],
    );
    assert_eq!(
        shown(&items),
        vec![
            ("parts/sub.typ".to_string(), "a2".to_string(), None),
            ("parts/sub.typ".to_string(), "b".to_string(), None),
        ]
    );
}

#[test]
fn span_without_range_falls_back() {
    let c = project();
    let items = extract(
        &c,
        &vec![Found { span: Some(Span { file: file("main.typ"), range: None }), plain: b"x+y".to_vec() }],
    );
    assert_eq!(shown(&items), vec![("main.typ".to_string(), "x+y".to_string(), None)]);
}

#[test]
fn nodes_without_text_are_skipped_only_when_they_fall_back() {
    let c = project();
    let items = extract(
        &c,
        &vec![found(None, ""), found(Some(("main.typ", 4, 4)), ""), found(Some(("gone.typ", 0, 1)), "")],
    );
    assert_eq!(shown(&items), vec![("main.typ".to_string(), "".to_string(), Some((4, 4)))]);
}

#[test]
fn no_target_nodes_give_no_extracted_items() {
    let c = project();
    assert!(extract(&c, &vec![]).is_empty());
}

#[test]
fn extracting_twice_gives_the_same_items() {
    let c = project();
    let nodes = vec![found(Some(("main.typ", 4, 11)), "x+y"), found(None, "z")];
    assert_eq!(shown(&extract(&c, &nodes)), shown(&extract(&c, &nodes)));
}
