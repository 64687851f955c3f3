use eqextract::path::{resolve, FileRef, ResolveError};

fn file(p: &str) -> FileRef {
    FileRef::local(p.split('/').map(|s| s.as_bytes().to_vec()).collect())
}

fn segments(r: &Result<FileRef, ResolveError>) -> Vec<String> {
    match r {
        Ok(f) => f.segments.iter().map(|s| String::from_utf8(s.clone()).unwrap()).collect(),
        Err(e) => panic!("unexpected error {:?}", e),
    }
}

#[test]
fn root_relative_is_the_same_from_every_file() {
    let a = resolve(b"/lib/util", &file("main.typ"));
    let b = resolve(b"/lib/util", &file("parts/deep/sub.typ"));
    assert_eq!(segments(&a), vec!["lib", "util.typ"]);
    assert_eq!(segments(&b), vec!["lib", "util.typ"]);
}

#[test]
fn relative_is_read_from_the_issuing_file_directory() {
    let from_sub = resolve(b"other.typ", &file("parts/sub.typ"));
    let from_main = resolve(b"other.typ", &file("main.typ"));
    assert_eq!(segments(&from_sub), vec!["parts", "other.typ"]);
    assert_eq!(segments(&from_main), vec!["other.typ"]);
}

#[test]
fn missing_suffix_gets_the_default() {
    let bare = resolve(b"parts/sub", &file("main.typ"));
    let full = resolve(b"parts/sub.typ", &file("main.typ"));
    assert_eq!(segments(&bare), vec!["parts", "sub.typ"]);
    assert_eq!(segments(&bare), segments(&full));
}

#[test]
fn existing_suffix_is_kept() {
    let r = resolve(b"data/table.csv", &file("main.typ"));
    assert_eq!(segments(&r), vec!["data", "table.csv"]);
}

#[test]
fn dot_segments_are_dropped_and_parents_climbed() {
    let r = resolve(b"./a/./b/../c", &file("parts/sub.typ"));
    assert_eq!(segments(&r), vec!["parts", "a", "c.typ"]);
    let up = resolve(b"../x", &file("parts/sub.typ"));
    assert_eq!(segments(&up), vec!["x.typ"]);
}

#[test]
fn climbing_above_the_root_is_refused() {
    assert_eq!(resolve(b"../x", &file("main.typ")).err(), Some(ResolveError::OutsideRoot));
    assert_eq!(
        resolve(b"../../x.typ", &file("parts/sub.typ")).err(),
        Some(ResolveError::OutsideRoot)
    );
    assert_eq!(resolve(b"/../x", &file("parts/sub.typ")).err(), Some(ResolveError::OutsideRoot));
    assert_eq!(resolve(b"a/../../b", &file("main.typ")).err(), Some(ResolveError::OutsideRoot));
}

#[test]
fn references_naming_no_file_are_not_found() {
    assert_eq!(resolve(b"", &file("main.typ")).err(), Some(ResolveError::NotFound));
    assert_eq!(resolve(b"/", &file("parts/sub.typ")).err(), Some(ResolveError::NotFound));
    assert_eq!(resolve(b"a/..", &file("main.typ")).err(), Some(ResolveError::NotFound));
}

#[test]
fn package_references_are_scoped_to_the_package() {
    let r = resolve(b"@preview/cetz:0.3.1/src/lib", &file("main.typ")).unwrap();
    let p = r.package.as_ref().unwrap();
    assert_eq!(p.namespace, b"preview".to_vec());
    assert_eq!(p.name, b"cetz".to_vec());
    assert_eq!((p.major, p.minor, p.patch), (0, 3, 1));
    assert_eq!(r.segments, vec![b"src".to_vec(), b"lib.typ".to_vec()]);
}

#[test]
fn package_files_resolve_within_their_package() {
    let inside = resolve(b"@preview/cetz:0.3.1/src/lib.typ", &file("main.typ")).unwrap();
    let sibling = resolve(b"draw.typ", &inside).unwrap();
    assert!(sibling.package.as_ref().unwrap().same(inside.package.as_ref().unwrap()));
    assert_eq!(sibling.segments, vec![b"src".to_vec(), b"draw.typ".to_vec()]);
    let top = resolve(b"/util", &inside).unwrap();
    assert!(top.package.is_some());
    assert_eq!(top.segments, vec![b"util.typ".to_vec()]);
    assert_eq!(
        resolve(b"../../x", &inside).err(),
        Some(ResolveError::OutsideRoot)
    );
}

#[test]
fn malformed_package_references_are_not_found() {
    assert_eq!(
        resolve(b"@preview/cetz/lib.typ", &file("main.typ")).err(),
        Some(ResolveError::NotFound)
    );
    assert_eq!(
        resolve(b"@preview/cetz:0.3.1", &file("main.typ")).err(),
        Some(ResolveError::NotFound)
    );
    assert_eq!(
        resolve(b"@preview/cetz:1.x.0/lib.typ", &file("main.typ")).err(),
        Some(ResolveError::NotFound)
    );
}

#[test]
fn identifiers_compare_by_package_and_path() {
    let a = file("parts/sub.typ");
    assert!(a.same(&a.copy()));
    assert!(!a.same(&file("parts/other.typ")));
    assert!(!a.same(&file("parts")));
    let p = resolve(b"@preview/cetz:0.3.1/parts/sub.typ", &a).unwrap();
    assert_eq!(p.segments, a.segments);
    assert!(!a.same(&p));
}
