use eqextract::cache::{Load, SourceCache};
use eqextract::path::{FileRef, ResolveError};

fn file(p: &str) -> FileRef {
    FileRef::local(p.split('/').map(|s| s.as_bytes().to_vec()).collect())
}

#[test]
fn a_file_is_stored_once_and_never_changes() {
    let mut c = SourceCache::new(file("main.typ"));
    assert!(c.text_of(&file("main.typ")).is_none());
    assert!(c.store(file("main.typ"), b"first".to_vec()));
    assert!(!c.store(file("main.typ"), b"second".to_vec()));
    assert_eq!(c.text_of(&file("main.typ")).unwrap(), &b"first".to_vec());
    assert!(c.store(file("parts/sub.typ"), b"sub".to_vec()));
    assert_eq!(c.text_of(&file("parts/sub.typ")).unwrap(), &b"sub".to_vec());
    assert_eq!(c.text_of(&file("main.typ")).unwrap(), &b"first".to_vec());
    assert!(c.entry().same(&file("main.typ")));
}

#[test]
fn plan_reads_only_what_is_not_cached() {
    let mut c = SourceCache::new(file("main.typ"));
    match c.plan(b"parts/sub", &file("main.typ")) {
        Load::Read(f) => assert!(f.same(&file("parts/sub.typ"))),
        _ => panic!("expected a read"),
    }
    c.store(file("parts/sub.typ"), b"x".to_vec());
    match c.plan(b"parts/sub.typ", &file("main.typ")) {
        Load::Cached(f) => assert!(f.same(&file("parts/sub.typ"))),
        _ => panic!("expected the cached text"),
    }
}

#[test]
fn plan_never_reads_outside_the_root() {
    let c = SourceCache::new(file("main.typ"));
    match c.plan(b"../secret", &file("main.typ")) {
        Load::Refused(e) => assert_eq!(e, ResolveError::OutsideRoot),
        _ => panic!("expected a refusal"),
    }
    match c.plan(b"", &file("main.typ")) {
        Load::Refused(e) => assert_eq!(e, ResolveError::NotFound),
        _ => panic!("expected a refusal"),
    }
}
