use eqextract::bytes::{bytes_equal, copy_bytes, slice_bytes};
use eqextract::path::first_index_from;

#[test]
fn equal_bytes_compare_equal() {
    assert!(bytes_equal(b"abc", b"abc"));
    assert!(bytes_equal(b"", b""));
    assert!(!bytes_equal(b"abc", b"abd"));
    assert!(!bytes_equal(b"abc", b"ab"));
}

#[test]
fn copies_and_slices_keep_the_bytes() {
    assert_eq!(copy_bytes(b"x = 1"), b"x = 1".to_vec());
    assert_eq!(slice_bytes(b"let $x$ be", 4, 7), b"$x$".to_vec());
    assert_eq!(slice_bytes(b"abc", 3, 3), Vec::<u8>::new());
}

#[test]
fn first_index_finds_the_next_occurrence() {
    assert_eq!(first_index_from(b"@ns/name:1.0.0/lib", b'/', 0), 3);
    assert_eq!(first_index_from(b"@ns/name:1.0.0/lib", b'/', 4), 14);
    assert_eq!(first_index_from(b"@ns/name:1.0.0/lib", b'/', 15), 18);
    assert_eq!(first_index_from(b"", b'/', 0), 0);
}
