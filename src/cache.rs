//! The contents of the files of one run, each read at most once.
use vstd::prelude::*;

use crate::path::{resolve, resolve_spec, FileRef, FileView, ResolveError};

verus! {

pub open spec fn entries_view(v: Seq<(FileRef, Vec<u8>)>) -> Seq<(FileView, Seq<u8>)> {
    v.map_values(|e: (FileRef, Vec<u8>)| (e.0@, e.1@))
}

/// The text stored for `f` in `entries`, the latest entry winning.
pub open spec fn find(entries: Seq<(FileView, Seq<u8>)>, f: FileView) -> Option<Seq<u8>>
    decreases entries.len(),
{
    if entries.len() == 0 {
        None
    } else if entries.last().0 == f {
        Some(entries.last().1)
    } else {
        find(entries.drop_last(), f)
    }
}

/// The files of a project that one run has read, keyed by their logical
/// identifier, and the run's entry file.
pub struct SourceCache {
    entry: FileRef,
    entries: Vec<(FileRef, Vec<u8>)>,
}

/// What to do for a reference: use the text already read, read the file, or
/// give up on a reference that names no file.
pub enum Load {
    Cached(FileRef),
    Read(FileRef),
    Refused(ResolveError),
}

impl SourceCache {
    pub closed spec fn entry_file(&self) -> FileView {
        self.entry@
    }

    pub closed spec fn contents(&self) -> Seq<(FileView, Seq<u8>)> {
        entries_view(self.entries@)
    }

    /// The text of `f`, if the run has read it.
    pub closed spec fn text_in(&self, f: FileView) -> Option<Seq<u8>> {
        find(self.contents(), f)
    }

    /// A cache that has read nothing yet, for a run that starts at `entry`.
    pub fn new(entry: FileRef) -> (r: SourceCache)
        ensures
            r.entry_file() == entry@,
            forall|f: FileView| #[trigger] r.text_in(f) is None,
    {
        let r = SourceCache { entry, entries: Vec::new() };
        assert(r.contents() =~= Seq::<(FileView, Seq<u8>)>::empty());
        r
    }

    /// The run's entry file.
    pub fn entry(&self) -> (r: &FileRef)
        ensures
            r@ == self.entry_file(),
    {
        &self.entry
    }

    /// The text read for `f`, if any.
    pub fn text_of(&self, f: &FileRef) -> (r: Option<&Vec<u8>>)
        ensures
            match r {
                Some(t) => self.text_in(f@) == Some(t@),
                None => self.text_in(f@) is None,
            },
    {
        let mut i: usize = self.entries.len();
        assert(self.contents().subrange(0, i as int) =~= self.contents());
        while i > 0
            invariant
                0 <= i <= self.entries@.len(),
                find(self.contents(), f@) == find(self.contents().subrange(0, i as int), f@),
            decreases i,
        {
            let ghost prefix = self.contents().subrange(0, i as int);
            assert(prefix.drop_last() =~= self.contents().subrange(0, i - 1));
            if self.entries[i - 1].0.same(f) {
                return Some(&self.entries[i - 1].1);
            }
            i = i - 1;
        }
        None
    }

    /// Stores the text read for `f`, unless `f` was read before: the text of a
    /// file never changes within a run.
    pub fn store(&mut self, f: FileRef, text: Vec<u8>) -> (stored: bool)
        ensures
            stored == old(self).text_in(f@) is None,
            final(self).entry_file() == old(self).entry_file(),
            forall|g: FileView|
                #[trigger] final(self).text_in(g) == if stored && g == f@ {
                    Some(text@)
                } else {
                    old(self).text_in(g)
                },
    {
        if self.text_of(&f).is_some() {
            return false;
        }
        let ghost before = self.entries@;
        let ghost fv = f@;
        let ghost tv = text@;
        self.entries.push((f, text));
        assert(self.contents() =~= entries_view(before).push((fv, tv)));
        assert(self.contents().drop_last() =~= entries_view(before));
        true
    }

    /// Decides how to obtain the file that `reference`, written in `current`,
    /// names. A reference refused by resolution never leads to a read.
    pub fn plan(&self, reference: &[u8], current: &FileRef) -> (r: Load)
        ensures
            match resolve_spec(reference@, current@) {
                Err(e) => r == Load::Refused(e),
                Ok(f) => match r {
                    Load::Cached(g) => g@ == f && self.text_in(f) is Some,
                    Load::Read(g) => g@ == f && self.text_in(f) is None,
                    Load::Refused(_) => false,
                },
            },
    {
        match resolve(reference, current) {
            Err(e) => Load::Refused(e),
            Ok(f) => if self.text_of(&f).is_some() {
                Load::Cached(f)
            } else {
                Load::Read(f)
            },
        }
    }
}

} // verus!
