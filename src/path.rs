//! Logical file identifiers and the resolution of file references.
use vstd::prelude::*;

use crate::bytes::{bytes_equal, copy_bytes, slice_bytes};
use typst::syntax::package::PackageSpec;

verus! {

pub const SLASH: u8 = 47;

pub const DOT: u8 = 46;

pub const AT: u8 = 64;

/// The suffix given to a reference whose last segment has none: `.typ`.
pub open spec fn default_suffix() -> Seq<u8> {
    seq![46u8, 116u8, 121u8, 112u8]
}

/// An external, versioned bundle of files: `@namespace/name:major.minor.patch`.
pub struct PackageRef {
    pub namespace: Vec<u8>,
    pub name: Vec<u8>,
    pub major: u32,
    pub minor: u32,
    pub patch: u32,
}

pub struct PackageView {
    pub namespace: Seq<u8>,
    pub name: Seq<u8>,
    pub major: u32,
    pub minor: u32,
    pub patch: u32,
}

impl View for PackageRef {
    type V = PackageView;

    open spec fn view(&self) -> PackageView {
        PackageView {
            namespace: self.namespace@,
            name: self.name@,
            major: self.major,
            minor: self.minor,
            patch: self.patch,
        }
    }
}

pub open spec fn package_view(p: Option<PackageRef>) -> Option<PackageView> {
    match p {
        Some(q) => Some(q@),
        None => None,
    }
}

/// Identifies a file independently of where it lies on disk: the package it
/// belongs to (none for a file of the project itself) and the segments of its
/// path below that package's or project's root.
pub struct FileRef {
    pub package: Option<PackageRef>,
    pub segments: Vec<Vec<u8>>,
}

pub struct FileView {
    pub package: Option<PackageView>,
    pub segments: Seq<Seq<u8>>,
}

pub open spec fn segments_view(v: Seq<Vec<u8>>) -> Seq<Seq<u8>> {
    v.map_values(|s: Vec<u8>| s@)
}

impl View for FileRef {
    type V = FileView;

    open spec fn view(&self) -> FileView {
        FileView { package: package_view(self.package), segments: segments_view(self.segments@) }
    }
}

/// Why a reference names no file.
#[derive(Debug, Clone, Copy, PartialEq, Eq, Structural)]
pub enum ResolveError {
    /// The reference names no file: an empty path, the root itself, or a
    /// malformed package specification.
    NotFound,
    /// The reference climbs above the root it is interpreted against.
    OutsideRoot,
}

/// The state of a left-to-right scan of a reference: the directory segments
/// reached so far, the segment being read, and whether the scan ever climbed
/// above the root.
pub struct Walk {
    pub stack: Seq<Seq<u8>>,
    pub piece: Seq<u8>,
    pub escaped: bool,
}

pub open spec fn start_walk(stack: Seq<Seq<u8>>) -> Walk {
    Walk { stack, piece: Seq::empty(), escaped: false }
}

/// What a finished segment does to the directory stack: `` and `.` leave it,
/// `..` leaves the current directory (`None` above the root), anything else
/// enters a directory or names a file.
pub open spec fn close_piece(stack: Seq<Seq<u8>>, piece: Seq<u8>) -> Option<Seq<Seq<u8>>> {
    if piece.len() == 0 || piece == seq![DOT] {
        Some(stack)
    } else if piece == seq![DOT, DOT] {
        if stack.len() == 0 {
            None
        } else {
            Some(stack.drop_last())
        }
    } else {
        Some(stack.push(piece))
    }
}

pub open spec fn step(w: Walk, b: u8) -> Walk {
    if b == SLASH {
        match close_piece(w.stack, w.piece) {
            Some(s) => Walk { stack: s, piece: Seq::empty(), escaped: w.escaped },
            None => Walk { stack: w.stack, piece: Seq::empty(), escaped: true },
        }
    } else {
        Walk { stack: w.stack, piece: w.piece.push(b), escaped: w.escaped }
    }
}

pub open spec fn walk(w: Walk, s: Seq<u8>) -> Walk
    decreases s.len(),
{
    if s.len() == 0 {
        w
    } else {
        step(walk(w, s.drop_last()), s.last())
    }
}

pub open spec fn with_default_suffix(seg: Seq<u8>) -> Seq<u8> {
    if seg.contains(DOT) {
        seg
    } else {
        seg + default_suffix()
    }
}

/// The file a finished scan names, within package `pkg`.
pub open spec fn finish(pkg: Option<PackageView>, w: Walk) -> Result<FileView, ResolveError> {
    match close_piece(w.stack, w.piece) {
        None => Err(ResolveError::OutsideRoot),
        Some(stack) => if w.escaped {
            Err(ResolveError::OutsideRoot)
        } else if stack.len() == 0 {
            Err(ResolveError::NotFound)
        } else {
            Ok(
                FileView {
                    package: pkg,
                    segments: stack.update(stack.len() - 1, with_default_suffix(stack.last())),
                },
            )
        },
    }
}

pub open spec fn parent_dir(segments: Seq<Seq<u8>>) -> Seq<Seq<u8>> {
    if segments.len() == 0 {
        segments
    } else {
        segments.drop_last()
    }
}

/// The first index at or after `start` that holds `b`, or the length of `s`.
pub open spec fn first_from(s: Seq<u8>, b: u8, start: int) -> int
    decreases s.len() - start,
{
    if start >= s.len() {
        s.len() as int
    } else if s[start] == b {
        start
    } else {
        first_from(s, b, start + 1)
    }
}

/// Where the package specification at the head of `@ns/name:version/path`
/// ends: at its second slash.
pub open spec fn package_end(r: Seq<u8>) -> int {
    first_from(r, SLASH, first_from(r, SLASH, 0) + 1)
}

/// The package that typst reads from a specification such as
/// `@preview/cetz:0.3.1`, if it reads one.
pub uninterp spec fn package_spec_of(text: Seq<u8>) -> Option<PackageView>;

/// The file that `reference`, written in file `current`, names.
///
/// A reference that starts with `@` names a file of the package that its
/// head specifies; one that starts with `/` is read from the root of the
/// current file's package or project; any other from the current file's
/// directory. The last segment gets the default suffix if it has none.
pub open spec fn resolve_spec(reference: Seq<u8>, current: FileView) -> Result<FileView, ResolveError> {
    if reference.len() > 0 && reference[0] == AT {
        let k = package_end(reference);
        match package_spec_of(reference.subrange(0, k)) {
            None => Err(ResolveError::NotFound),
            Some(p) => finish(Some(p), walk(start_walk(Seq::empty()), reference.subrange(k, reference.len() as int))),
        }
    } else if reference.len() > 0 && reference[0] == SLASH {
        finish(current.package, walk(start_walk(Seq::empty()), reference))
    } else {
        finish(current.package, walk(start_walk(parent_dir(current.segments)), reference))
    }
}

pub open spec fn result_view(r: Result<FileRef, ResolveError>) -> Result<FileView, ResolveError> {
    match r {
        Ok(f) => Ok(f@),
        Err(e) => Err(e),
    }
}

/// Relies on typst's `PackageSpec::from_str`, which reads a package
/// specification `@namespace/name:major.minor.patch`.
#[verifier::external_body]
fn parse_package(text: &[u8]) -> (r: Option<PackageRef>)
    ensures
        package_view(r) == package_spec_of(text@),
{
    let spec: PackageSpec = std::str::from_utf8(text).ok()?.parse().ok()?;
    Some(PackageRef {
        namespace: spec.namespace.as_bytes().to_vec(),
        name: spec.name.as_bytes().to_vec(),
        major: spec.version.major,
        minor: spec.version.minor,
        patch: spec.version.patch,
    })
}

impl PackageRef {
    pub fn copy(&self) -> (r: PackageRef)
        ensures
            r@ == self@,
    {
        PackageRef {
            namespace: copy_bytes(self.namespace.as_slice()),
            name: copy_bytes(self.name.as_slice()),
            major: self.major,
            minor: self.minor,
            patch: self.patch,
        }
    }

    pub fn same(&self, other: &PackageRef) -> (r: bool)
        ensures
            r == (self@ == other@),
    {
        bytes_equal(self.namespace.as_slice(), other.namespace.as_slice())
            && bytes_equal(self.name.as_slice(), other.name.as_slice()) && self.major == other.major
            && self.minor == other.minor && self.patch == other.patch
    }
}

fn copy_package(p: &Option<PackageRef>) -> (r: Option<PackageRef>)
    ensures
        package_view(r) == package_view(*p),
{
    match p {
        Some(q) => Some(q.copy()),
        None => None,
    }
}

fn copy_segments(v: &Vec<Vec<u8>>, n: usize) -> (r: Vec<Vec<u8>>)
    requires
        n <= v@.len(),
    ensures
        segments_view(r@) == segments_view(v@).subrange(0, n as int),
{
    let mut r: Vec<Vec<u8>> = Vec::new();
    let mut i: usize = 0;
    while i < n
        invariant
            0 <= i <= n <= v@.len(),
            r@.len() == i,
            segments_view(r@) == segments_view(v@).subrange(0, i as int),
        decreases n - i,
    {
        let seg = copy_bytes(v[i].as_slice());
        let ghost before = r@;
        r.push(seg);
        assert(r@ == before.push(seg));
        assert(segments_view(r@)[i as int] == segments_view(v@)[i as int]);
        assert(segments_view(r@) =~= segments_view(v@).subrange(0, i + 1));
        i = i + 1;
    }
    r
}

impl FileRef {
    /// A file of the project itself.
    pub fn local(segments: Vec<Vec<u8>>) -> (r: FileRef)
        ensures
            r@.package is None,
            r@.segments == segments_view(segments@),
    {
        FileRef { package: None, segments }
    }

    pub fn copy(&self) -> (r: FileRef)
        ensures
            r@ == self@,
    {
        let segments = copy_segments(&self.segments, self.segments.len());
        assert(segments_view(self.segments@).subrange(0, self.segments@.len() as int)
            =~= segments_view(self.segments@));
        FileRef { package: copy_package(&self.package), segments }
    }

    /// Whether two identifiers name the same file.
    pub fn same(&self, other: &FileRef) -> (r: bool)
        ensures
            r == (self@ == other@),
    {
        let same_package = match (&self.package, &other.package) {
            (Some(a), Some(b)) => a.same(b),
            (None, None) => true,
            _ => false,
        };
        if !same_package {
            assert(self@.package != other@.package);
            return false;
        }
        if self.segments.len() != other.segments.len() {
            assert(self@.segments.len() != other@.segments.len());
            return false;
        }
        let mut i: usize = 0;
        while i < self.segments.len()
            invariant
                self.segments@.len() == other.segments@.len(),
                0 <= i <= self.segments@.len(),
                package_view(self.package) == package_view(other.package),
                forall|j: int|
                    0 <= j < i ==> #[trigger] self.segments@[j]@ == other.segments@[j]@,
            decreases self.segments@.len() - i,
        {
            if !bytes_equal(self.segments[i].as_slice(), other.segments[i].as_slice()) {
                assert(segments_view(self.segments@)[i as int] != segments_view(
                    other.segments@,
                )[i as int]);
                return false;
            }
            i = i + 1;
        }
        assert(segments_view(self.segments@) =~= segments_view(other.segments@));
        true
    }
}

/// The first index at or after `start` at which `s` holds `b`, or its length.
pub fn first_index_from(s: &[u8], b: u8, start: usize) -> (r: usize)
    requires
        start <= s@.len(),
    ensures
        start <= r <= s@.len(),
        r == first_from(s@, b, start as int),
{
    let mut i: usize = start;
    while i < s.len()
        invariant
            start <= i <= s@.len(),
            first_from(s@, b, start as int) == first_from(s@, b, i as int),
        decreases s@.len() - i,
    {
        if s[i] == b {
            return i;
        }
        i = i + 1;
    }
    i
}

/// Applies one finished segment to the directory stack; `false` where it
/// climbs above the root, and the stack is then left as it was.
fn close_piece_exec(stack: &mut Vec<Vec<u8>>, piece: Vec<u8>) -> (ok: bool)
    ensures
        ok == close_piece(segments_view(old(stack)@), piece@) is Some,
        ok ==> segments_view(final(stack)@) == close_piece(
            segments_view(old(stack)@),
            piece@,
        ).unwrap(),
        !ok ==> final(stack)@ == old(stack)@,
{
    let n = piece.len();
    let is_dot = n == 1 && piece[0] == DOT;
    let is_dot_dot = n == 2 && piece[0] == DOT && piece[1] == DOT;
    proof {
        if is_dot {
            assert(piece@ =~= seq![DOT]);
        }
        if is_dot_dot {
            assert(piece@ =~= seq![DOT, DOT]);
        }
        if piece@ == seq![DOT] {
            assert(is_dot);
        }
        if piece@ == seq![DOT, DOT] {
            assert(is_dot_dot);
        }
    }
    if n == 0 || is_dot {
        return true;
    }
    if is_dot_dot {
        if stack.len() == 0 {
            return false;
        }
        stack.pop();
        assert(segments_view(stack@) =~= segments_view(old(stack)@).drop_last());
        return true;
    }
    let ghost before = stack@;
    stack.push(piece);
    assert(stack@ == before.push(piece));
    assert(segments_view(stack@) =~= segments_view(before).push(piece@));
    true
}

/// Scans `s[start..]` from the given directory stack.
fn walk_exec(s: &[u8], start: usize, stack: Vec<Vec<u8>>) -> (r: (Vec<Vec<u8>>, Vec<u8>, bool))
    requires
        start <= s@.len(),
    ensures
        ({
            let w = walk(
                start_walk(segments_view(stack@)),
                s@.subrange(start as int, s@.len() as int),
            );
            segments_view(r.0@) == w.stack && r.1@ == w.piece && r.2 == w.escaped
        }),
{
    let ghost w0 = start_walk(segments_view(stack@));
    let mut stack = stack;
    let mut piece: Vec<u8> = Vec::new();
    let mut escaped = false;
    let mut i: usize = start;
    assert(walk(w0, s@.subrange(start as int, start as int)) == w0);
    assert(piece@ =~= Seq::<u8>::empty());
    while i < s.len()
        invariant
            start <= i <= s@.len(),
            ({
                let w = walk(w0, s@.subrange(start as int, i as int));
                segments_view(stack@) == w.stack && piece@ == w.piece && escaped == w.escaped
            }),
        decreases s@.len() - i,
    {
        let ghost sub = s@.subrange(start as int, i + 1);
        assert(sub.drop_last() =~= s@.subrange(start as int, i as int));
        assert(sub.last() == s@[i as int]);
        if s[i] == SLASH {
            let ok = close_piece_exec(&mut stack, piece);
            piece = Vec::new();
            assert(piece@ =~= Seq::<u8>::empty());
            if !ok {
                escaped = true;
            }
        } else {
            piece.push(s[i]);
        }
        i = i + 1;
    }
    (stack, piece, escaped)
}

/// Gives `seg` the default suffix if it holds no dot.
fn suffixed(seg: Vec<u8>) -> (r: Vec<u8>)
    ensures
        r@ == with_default_suffix(seg@),
{
    let mut i: usize = 0;
    while i < seg.len()
        invariant
            0 <= i <= seg@.len(),
            forall|j: int| 0 <= j < i ==> seg@[j] != DOT,
        decreases seg@.len() - i,
    {
        if seg[i] == DOT {
            assert(seg@.contains(DOT)) by {
                assert(seg@[i as int] == DOT);
            }
            return seg;
        }
        i = i + 1;
    }
    assert(!seg@.contains(DOT));
    let mut r = seg;
    r.push(46u8);
    r.push(116u8);
    r.push(121u8);
    r.push(112u8);
    assert(r@ =~= seg@ + default_suffix());
    r
}

fn finish_exec(pkg: Option<PackageRef>, stack: Vec<Vec<u8>>, piece: Vec<u8>, escaped: bool) -> (r:
    Result<FileRef, ResolveError>)
    ensures
        result_view(r) == finish(
            package_view(pkg),
            Walk { stack: segments_view(stack@), piece: piece@, escaped },
        ),
{
    let ghost old_stack = segments_view(stack@);
    let mut stack = stack;
    let ok = close_piece_exec(&mut stack, piece);
    if !ok || escaped {
        return Err(ResolveError::OutsideRoot);
    }
    if stack.len() == 0 {
        return Err(ResolveError::NotFound);
    }
    let ghost closed = segments_view(stack@);
    let last = stack.pop().unwrap();
    let seg = suffixed(last);
    stack.push(seg);
    assert(segments_view(stack@) =~= closed.update(
        closed.len() - 1,
        with_default_suffix(closed.last()),
    ));
    Ok(FileRef { package: pkg, segments: stack })
}

/// Resolves `reference`, written in file `current`, to the file it names.
pub fn resolve(reference: &[u8], current: &FileRef) -> (r: Result<FileRef, ResolveError>)
    ensures
        result_view(r) == resolve_spec(reference@, current@),
{
    let n = reference.len();
    let empty: Vec<Vec<u8>> = Vec::new();
    assert(segments_view(empty@) =~= Seq::<Seq<u8>>::empty());
    if n > 0 && reference[0] == AT {
        let k1 = first_index_from(reference, SLASH, 0);
        let k = if k1 < n {
            first_index_from(reference, SLASH, k1 + 1)
        } else {
            n
        };
        assert(k == package_end(reference@));
        let head = slice_bytes(reference, 0, k);
        match parse_package(head.as_slice()) {
            None => Err(ResolveError::NotFound),
            Some(p) => {
                let (stack, piece, escaped) = walk_exec(reference, k, empty);
                finish_exec(Some(p), stack, piece, escaped)
            },
        }
    } else if n > 0 && reference[0] == SLASH {
        assert(reference@.subrange(0, n as int) =~= reference@);
        let (stack, piece, escaped) = walk_exec(reference, 0, empty);
        finish_exec(copy_package(&current.package), stack, piece, escaped)
    } else {
        let dir = if current.segments.len() == 0 {
            empty
        } else {
            copy_segments(&current.segments, current.segments.len() - 1)
        };
        assert(segments_view(dir@) =~= parent_dir(current@.segments));
        assert(reference@.subrange(0, n as int) =~= reference@);
        let (stack, piece, escaped) = walk_exec(reference, 0, dir);
        finish_exec(copy_package(&current.package), stack, piece, escaped)
    }
}

proof fn lemma_walk_append(w: Walk, a: Seq<u8>, b: Seq<u8>)
    ensures
        walk(w, a + b) == walk(walk(w, a), b),
    decreases b.len(),
{
    if b.len() == 0 {
        assert(a + b =~= a);
    } else {
        lemma_walk_append(w, a, b.drop_last());
        assert((a + b).drop_last() =~= a + b.drop_last());
        assert((a + b).last() == b.last());
    }
}

proof fn lemma_walk_without_slash(w: Walk, s: Seq<u8>)
    requires
        forall|i: int| 0 <= i < s.len() ==> s[i] != SLASH,
    ensures
        walk(w, s) == (Walk { stack: w.stack, piece: w.piece + s, escaped: w.escaped }),
    decreases s.len(),
{
    if s.len() == 0 {
        assert(w.piece + s =~= w.piece);
    } else {
        lemma_walk_without_slash(w, s.drop_last());
        assert(w.piece + s =~= (w.piece + s.drop_last()).push(s.last()));
    }
}

proof fn lemma_walk_stays_escaped(w: Walk, s: Seq<u8>)
    requires
        w.escaped,
    ensures
        walk(w, s).escaped,
    decreases s.len(),
{
    if s.len() > 0 {
        lemma_walk_stays_escaped(w, s.drop_last());
    }
}

proof fn lemma_first_from_bounds(s: Seq<u8>, b: u8, start: int)
    requires
        0 <= start <= s.len(),
    ensures
        start <= first_from(s, b, start) <= s.len(),
    decreases s.len() - start,
{
    if start < s.len() && s[start] != b {
        lemma_first_from_bounds(s, b, start + 1);
    }
}

proof fn lemma_first_from_prefix(a: Seq<u8>, c: Seq<u8>, b: u8, start: int)
    requires
        0 <= start,
        first_from(a, b, start) < a.len(),
    ensures
        first_from(a + c, b, start) == first_from(a, b, start),
    decreases a.len() - start,
{
    if start < a.len() && a[start] != b {
        lemma_first_from_prefix(a, c, b, start + 1);
    }
}

/// After a prefix that leaves no segment half read, a last segment `stem`
/// without a dot names the same file as `stem` with the default suffix.
proof fn lemma_suffix_after(pkg: Option<PackageView>, w: Walk, d: Seq<u8>, stem: Seq<u8>)
    requires
        w.piece.len() == 0,
        d.len() == 0 || d.last() == SLASH,
        stem.len() > 0,
        forall|i: int| 0 <= i < stem.len() ==> stem[i] != SLASH && stem[i] != DOT,
    ensures
        finish(pkg, walk(w, d + stem)) == finish(pkg, walk(w, d + stem + default_suffix())),
{
    let suffixed = stem + default_suffix();
    assert(d + stem + default_suffix() =~= d + suffixed);
    lemma_walk_append(w, d, stem);
    lemma_walk_append(w, d, suffixed);
    let w1 = walk(w, d);
    if d.len() > 0 {
        assert(d.drop_last() + seq![SLASH] =~= d);
        lemma_walk_append(w, d.drop_last(), seq![SLASH]);
        assert(seq![SLASH].drop_last() =~= Seq::<u8>::empty());
    }
    assert(w1.piece.len() == 0);
    assert forall|i: int| 0 <= i < suffixed.len() implies suffixed[i] != SLASH by {
        if i >= stem.len() {
            assert(suffixed[i] == default_suffix()[i - stem.len()]);
        }
    }
    lemma_walk_without_slash(w1, stem);
    lemma_walk_without_slash(w1, suffixed);
    assert(w1.piece + stem =~= stem);
    assert(w1.piece + suffixed =~= suffixed);
    assert(seq![DOT][0] == DOT);
    assert(seq![DOT, DOT][0] == DOT);
    assert(stem != seq![DOT] && stem != seq![DOT, DOT]);
    assert(suffixed.len() > 2);
    assert(!stem.contains(DOT));
    assert(suffixed[stem.len() as int] == DOT);
    assert(suffixed.contains(DOT));
    assert(w1.stack.push(stem).update(w1.stack.len() as int, with_default_suffix(stem))
        =~= w1.stack.push(suffixed).update(w1.stack.len() as int, with_default_suffix(suffixed)));
}

/// A reference whose last segment has no suffix names the same file as the
/// reference with the default suffix appended.
///
/// The reference is `dir + stem`, where `stem` is its last segment; a package
/// specification at its head must end before that segment, for otherwise the
/// suffix would change the package's version rather than the file.
pub proof fn lemma_default_suffix(dir: Seq<u8>, stem: Seq<u8>, current: FileView)
    requires
        dir.len() == 0 || dir.last() == SLASH,
        stem.len() > 0,
        forall|i: int| 0 <= i < stem.len() ==> stem[i] != SLASH && stem[i] != DOT,
        (dir + stem)[0] == AT ==> package_end(dir) < dir.len(),
    ensures
        resolve_spec(dir + stem, current) == resolve_spec(dir + stem + default_suffix(), current),
{
    let r1 = dir + stem;
    let r2 = dir + stem + default_suffix();
    assert(r2 =~= r1 + default_suffix());
    assert(r2[0] == r1[0]);
    if r1[0] == AT {
        let k1 = first_from(dir, SLASH, 0);
        let k = package_end(dir);
        if k1 >= dir.len() {
            assert(first_from(dir, SLASH, k1 + 1) == dir.len());
        }
        assert(k1 < dir.len());
        lemma_first_from_bounds(dir, SLASH, 0);
        lemma_first_from_bounds(dir, SLASH, k1 + 1);
        lemma_first_from_prefix(dir, stem, SLASH, 0);
        lemma_first_from_prefix(dir, stem + default_suffix(), SLASH, 0);
        assert(dir + (stem + default_suffix()) =~= r2);
        lemma_first_from_prefix(dir, stem, SLASH, k1 + 1);
        lemma_first_from_prefix(dir, stem + default_suffix(), SLASH, k1 + 1);
        assert(package_end(r1) == k);
        assert(package_end(r2) == k);
        assert(r1.subrange(0, k) =~= r2.subrange(0, k));
        let d = dir.subrange(k, dir.len() as int);
        assert(r1.subrange(k, r1.len() as int) =~= d + stem);
        assert(r2.subrange(k, r2.len() as int) =~= d + stem + default_suffix());
        assert(d.last() == dir.last());
        match package_spec_of(r1.subrange(0, k)) {
            None => {},
            Some(p) => {
                lemma_suffix_after(Some(p), start_walk(Seq::empty()), d, stem);
            },
        }
    } else if r1[0] == SLASH {
        lemma_suffix_after(current.package, start_walk(Seq::empty()), dir, stem);
    } else {
        lemma_suffix_after(
            current.package,
            start_walk(parent_dir(current.segments)),
            dir,
            stem,
        );
    }
}

/// A reference that starts with `/` names the same file whichever file of a
/// package or project holds it.
pub proof fn lemma_root_relative(reference: Seq<u8>, a: FileView, b: FileView)
    requires
        reference.len() > 0,
        reference[0] == SLASH,
        a.package == b.package,
    ensures
        resolve_spec(reference, a) == resolve_spec(reference, b),
{
}

/// A bare file name names the file of that name, with the default suffix, in
/// the directory of the file that holds the reference.
pub proof fn lemma_relative_to_own_directory(stem: Seq<u8>, current: FileView)
    requires
        stem.len() > 0,
        stem[0] != AT,
        forall|i: int| 0 <= i < stem.len() ==> stem[i] != SLASH && stem[i] != DOT,
    ensures
        resolve_spec(stem, current) == Ok::<FileView, ResolveError>(
            FileView {
                package: current.package,
                segments: parent_dir(current.segments).push(stem + default_suffix()),
            },
        ),
{
    let w = start_walk(parent_dir(current.segments));
    lemma_walk_without_slash(w, stem);
    assert(w.piece + stem =~= stem);
    assert(seq![DOT][0] == DOT);
    assert(seq![DOT, DOT][0] == DOT);
    assert(stem != seq![DOT] && stem != seq![DOT, DOT]);
    assert(!stem.contains(DOT));
    assert(w.stack.push(stem).update(w.stack.len() as int, stem + default_suffix())
        =~= w.stack.push(stem + default_suffix()));
}

/// A reference that climbs above the root from a file at the top of its
/// package or project is refused as lying outside the root, whatever follows.
pub proof fn lemma_climbing_out_is_refused(rest: Seq<u8>, current: FileView)
    requires
        current.segments.len() <= 1,
    ensures
        resolve_spec(seq![DOT, DOT, SLASH] + rest, current) == Err::<FileView, ResolveError>(
            ResolveError::OutsideRoot,
        ),
{
    let r = seq![DOT, DOT, SLASH] + rest;
    let w = start_walk(parent_dir(current.segments));
    assert(parent_dir(current.segments).len() == 0);
    lemma_walk_append(w, seq![DOT, DOT, SLASH], rest);
    let head = seq![DOT, DOT, SLASH];
    assert(head.drop_last() =~= seq![DOT, DOT]);
    assert(head.drop_last().drop_last() =~= seq![DOT]);
    assert(head.drop_last().drop_last().drop_last() =~= Seq::<u8>::empty());
    assert(seq![DOT].drop_last() =~= Seq::<u8>::empty());
    assert(seq![DOT, DOT].drop_last() =~= seq![DOT]);
    assert(w.piece.push(DOT) =~= seq![DOT]);
    assert(seq![DOT].push(DOT) =~= seq![DOT, DOT]);
    lemma_walk_without_slash(w, seq![DOT, DOT]);
    assert(w.piece + seq![DOT, DOT] =~= seq![DOT, DOT]);
    assert(head.last() == SLASH);
    assert(walk(w, head).escaped);
    lemma_walk_stays_escaped(walk(w, head), rest);
    assert(r[0] == DOT);
}

} // verus!
