//! Recovery of the exact source text of target nodes found in an evaluated
//! document, from the spans the evaluator attached to them.
use vstd::prelude::*;

use crate::bytes::{copy_bytes, slice_bytes};
use crate::cache::SourceCache;
use crate::path::{FileRef, FileView};

verus! {

/// A reference into the text of a file: the byte range `start..end`, absent
/// where the file's current text holds no node for the span.
pub struct Span {
    pub file: FileRef,
    pub range: Option<(usize, usize)>,
}

/// A target node of an evaluated document: its span, absent where the node
/// was built by the evaluator rather than read from a file, and a plain-text
/// rendering of the node.
pub struct Found {
    pub span: Option<Span>,
    pub plain: Vec<u8>,
}

pub struct SpanView {
    pub file: FileView,
    pub range: Option<(usize, usize)>,
}

pub struct FoundView {
    pub span: Option<SpanView>,
    pub plain: Seq<u8>,
}

impl View for Found {
    type V = FoundView;

    open spec fn view(&self) -> FoundView {
        FoundView {
            span: match self.span {
                Some(s) => Some(SpanView { file: s.file@, range: s.range }),
                None => None,
            },
            plain: self.plain@,
        }
    }
}

/// The text recovered for a target node and the file it is attributed to.
/// `range` is the byte range that `text` is an exact copy of; where it is
/// absent, `text` is the node's plain-text rendering instead.
pub struct Extracted {
    pub file: FileRef,
    pub text: Vec<u8>,
    pub range: Option<(usize, usize)>,
}

pub struct ExtractedView {
    pub file: FileView,
    pub text: Seq<u8>,
    pub range: Option<(usize, usize)>,
}

impl View for Extracted {
    type V = ExtractedView;

    open spec fn view(&self) -> ExtractedView {
        ExtractedView { file: self.file@, text: self.text@, range: self.range }
    }
}

pub open spec fn found_view(s: Seq<Found>) -> Seq<FoundView> {
    s.map_values(|x: Found| x@)
}

pub open spec fn extracted_view(s: Seq<Extracted>) -> Seq<ExtractedView> {
    s.map_values(|x: Extracted| x@)
}

/// The plain-text rendering, attributed to `file`; nothing where the node
/// renders to no text at all.
pub open spec fn fallback(file: FileView, plain: Seq<u8>) -> Option<ExtractedView> {
    if plain.len() == 0 {
        None
    } else {
        Some(ExtractedView { file, text: plain, range: None })
    }
}

/// What one target node yields: the exact slice of its file at its span;
/// the plain-text rendering where the span is detached (attributed to the
/// entry file), where its file was never read, or where the span has no
/// range that lies within that file's text.
pub open spec fn extract_one(cache: SourceCache, m: FoundView) -> Option<ExtractedView> {
    match m.span {
        None => fallback(cache.entry_file(), m.plain),
        Some(sp) => match cache.text_in(sp.file) {
            None => fallback(sp.file, m.plain),
            Some(text) => match sp.range {
                Some((start, end)) => if start <= end && end <= text.len() {
                    Some(
                        ExtractedView {
                            file: sp.file,
                            text: text.subrange(start as int, end as int),
                            range: Some((start, end)),
                        },
                    )
                } else {
                    fallback(sp.file, m.plain)
                },
                None => fallback(sp.file, m.plain),
            },
        },
    }
}

pub open spec fn extract_spec(cache: SourceCache, found: Seq<FoundView>) -> Seq<ExtractedView>
    decreases found.len(),
{
    if found.len() == 0 {
        Seq::empty()
    } else {
        extract_spec(cache, found.drop_last()) + match extract_one(cache, found.last()) {
            Some(x) => seq![x],
            None => Seq::empty(),
        }
    }
}

fn extract_one_exec(cache: &SourceCache, m: &Found) -> (r: Option<Extracted>)
    ensures
        match r {
            Some(x) => extract_one(*cache, m@) == Some(x@),
            None => extract_one(*cache, m@) is None,
        },
{
    match &m.span {
        None => if m.plain.len() == 0 {
            None
        } else {
            Some(
                Extracted {
                    file: cache.entry().copy(),
                    text: copy_bytes(m.plain.as_slice()),
                    range: None,
                },
            )
        },
        Some(sp) => {
            let exact = match (cache.text_of(&sp.file), sp.range) {
                (Some(text), Some((start, end))) => if start <= end && end <= text.len() {
                    Some((slice_bytes(text.as_slice(), start, end), (start, end)))
                } else {
                    None
                },
                _ => None,
            };
            match exact {
                Some((t, range)) => Some(
                    Extracted { file: sp.file.copy(), text: t, range: Some(range) },
                ),
                None => if m.plain.len() == 0 {
                    None
                } else {
                    Some(
                        Extracted {
                            file: sp.file.copy(),
                            text: copy_bytes(m.plain.as_slice()),
                            range: None,
                        },
                    )
                },
            }
        },
    }
}

/// Recovers the text of each target node, in the order given (the
/// evaluated document's order). A bad span never stops extraction: the node
/// then yields its plain-text rendering.
pub fn extract(cache: &SourceCache, found: &Vec<Found>) -> (r: Vec<Extracted>)
    ensures
        extracted_view(r@) == extract_spec(*cache, found_view(found@)),
{
    let mut r: Vec<Extracted> = Vec::new();
    let mut i: usize = 0;
    assert(found_view(found@).subrange(0, 0) =~= Seq::<FoundView>::empty());
    assert(extracted_view(r@) =~= Seq::<ExtractedView>::empty());
    while i < found.len()
        invariant
            0 <= i <= found@.len(),
            extracted_view(r@) == extract_spec(*cache, found_view(found@).subrange(0, i as int)),
        decreases found@.len() - i,
    {
        let ghost sub = found_view(found@).subrange(0, i + 1);
        assert(sub.drop_last() =~= found_view(found@).subrange(0, i as int));
        assert(sub.last() == found@[i as int]@);
        let ghost before = r@;
        match extract_one_exec(cache, &found[i]) {
            Some(x) => {
                r.push(x);
                assert(extracted_view(r@) =~= extracted_view(before) + seq![x@]);
            },
            None => {},
        }
        i = i + 1;
    }
    assert(found_view(found@).subrange(0, found@.len() as int) =~= found_view(found@));
    r
}

/// Every item that carries a range is byte for byte the text of its file at
/// that range.
pub proof fn lemma_exact_items_match_source(cache: SourceCache, found: Seq<FoundView>)
    ensures
        forall|k: int|
            0 <= k < extract_spec(cache, found).len() && (#[trigger] extract_spec(
                cache,
                found,
            )[k]).range is Some ==> {
                let x = extract_spec(cache, found)[k];
                let (s, e) = x.range.unwrap();
                &&& cache.text_in(x.file) is Some
                &&& s <= e <= cache.text_in(x.file).unwrap().len()
                &&& x.text == cache.text_in(x.file).unwrap().subrange(s as int, e as int)
            },
    decreases found.len(),
{
    if found.len() > 0 {
        lemma_exact_items_match_source(cache, found.drop_last());
        let prev = extract_spec(cache, found.drop_last());
        let all = extract_spec(cache, found);
        assert forall|k: int| 0 <= k < all.len() && (#[trigger] all[k]).range is Some implies {
            let x = all[k];
            let (s, e) = x.range.unwrap();
            &&& cache.text_in(x.file) is Some
            &&& s <= e <= cache.text_in(x.file).unwrap().len()
            &&& x.text == cache.text_in(x.file).unwrap().subrange(s as int, e as int)
        } by {
            if k < prev.len() {
                assert(all[k] == prev[k]);
            }
        }
    }
}

/// Extraction over two caches that hold the same entry file and the same
/// texts gives the same items in the same order: a run over an unchanged
/// project repeats its output.
pub proof fn lemma_extraction_repeatable(a: SourceCache, b: SourceCache, found: Seq<FoundView>)
    requires
        a.entry_file() == b.entry_file(),
        forall|f: FileView| #[trigger] a.text_in(f) == b.text_in(f),
    ensures
        extract_spec(a, found) == extract_spec(b, found),
    decreases found.len(),
{
    if found.len() > 0 {
        lemma_extraction_repeatable(a, b, found.drop_last());
        match found.last().span {
            Some(sp) => {
                assert(a.text_in(sp.file) == b.text_in(sp.file));
            },
            None => {},
        }
        assert(extract_one(a, found.last()) == extract_one(b, found.last()));
    }
}

/// A detached span yields the plain-text rendering, attributed to the entry
/// file, with no range.
pub proof fn lemma_detached_falls_back(cache: SourceCache, m: FoundView)
    requires
        m.span is None,
        m.plain.len() > 0,
    ensures
        extract_spec(cache, seq![m]) == seq![
            ExtractedView { file: cache.entry_file(), text: m.plain, range: None },
        ],
{
    assert(seq![m].drop_last() =~= Seq::<FoundView>::empty());
    assert(seq![m].last() == m);
    assert(extract_spec(cache, Seq::<FoundView>::empty()) == Seq::<ExtractedView>::empty());
    assert(Seq::<ExtractedView>::empty() + seq![
        ExtractedView { file: cache.entry_file(), text: m.plain, range: None },
    ] =~= seq![ExtractedView { file: cache.entry_file(), text: m.plain, range: None }]);
}

} // verus!
