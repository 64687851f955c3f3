//! Depth-first exploration of the files reachable from an entry file,
//! emitting each target node once and visiting each file once.
use vstd::prelude::*;

use crate::bytes::copy_bytes;
use crate::path::{resolve, resolve_spec, FileRef, FileView, ResolveError};
use crate::syntax::{pre_order, steps_of, steps_view, Node, Step, StepView};

verus! {

/// A target node's source text and the file it came from.
pub struct Item {
    pub file: FileRef,
    pub text: Vec<u8>,
}

impl View for Item {
    type V = (FileView, Seq<u8>);

    open spec fn view(&self) -> (FileView, Seq<u8>) {
        (self.file@, self.text@)
    }
}

pub open spec fn items_view(s: Seq<Item>) -> Seq<(FileView, Seq<u8>)> {
    s.map_values(|x: Item| x@)
}

/// Why exploration stopped.
pub enum ExploreError {
    /// A literal path names no file.
    Refused(ResolveError),
    /// A literal path names a file that is not among the files given.
    Missing(FileRef),
}

pub enum ExploreErrorView {
    Refused(ResolveError),
    Missing(FileView),
}

impl View for ExploreError {
    type V = ExploreErrorView;

    open spec fn view(&self) -> ExploreErrorView {
        match self {
            ExploreError::Refused(e) => ExploreErrorView::Refused(*e),
            ExploreError::Missing(f) => ExploreErrorView::Missing(f@),
        }
    }
}

/// Why a visit stopped; `Exhausted` where files nest deeper than the depth
/// allowed, which never happens with a depth of the number of files.
pub enum Failure {
    Refused(ResolveError),
    Missing(FileRef),
    Exhausted,
}

pub enum FailureView {
    Refused(ResolveError),
    Missing(FileView),
    Exhausted,
}

impl View for Failure {
    type V = FailureView;

    open spec fn view(&self) -> FailureView {
        match self {
            Failure::Refused(e) => FailureView::Refused(*e),
            Failure::Missing(f) => FailureView::Missing(f@),
            Failure::Exhausted => FailureView::Exhausted,
        }
    }
}

pub open spec fn failure_view(f: Option<Failure>) -> Option<FailureView> {
    match f {
        Some(x) => Some(x@),
        None => None,
    }
}

/// The outcome of visiting a file or walking part of one: the items
/// emitted, which files are visited afterwards, the files newly visited in
/// the order of their visits, and the failure that stopped it, if any.
pub struct Trace {
    pub out: Seq<(FileView, Seq<u8>)>,
    pub visited: Seq<bool>,
    pub order: Seq<int>,
    pub failure: Option<FailureView>,
}

pub open spec fn stopped(visited: Seq<bool>, failure: FailureView) -> Trace {
    Trace { out: Seq::empty(), visited, order: Seq::empty(), failure: Some(failure) }
}

/// The position of file `f` among `files` from `start` on, or -1.
pub open spec fn index_in(files: Seq<(FileRef, Node)>, f: FileView, start: int) -> int
    decreases files.len() - start,
{
    if start < 0 || start >= files.len() {
        -1
    } else if files[start].0@ == f {
        start
    } else {
        index_in(files, f, start + 1)
    }
}

/// Visits file `i`: marks it visited, then walks its steps.
pub open spec fn visit(files: Seq<(FileRef, Node)>, i: int, visited: Seq<bool>, depth: nat) -> Trace
    decreases depth, 1int, 0int,
{
    let t = run(files, i, steps_of(files[i].1), 0, visited.update(i, true), depth);
    Trace { out: t.out, visited: t.visited, order: seq![i] + t.order, failure: t.failure }
}

/// Walks the steps of file `i` from the `k`-th on: emits target text, and
/// visits each file that a path names before going on, unless it is visited
/// already.
pub open spec fn run(
    files: Seq<(FileRef, Node)>,
    i: int,
    steps: Seq<StepView>,
    k: int,
    visited: Seq<bool>,
    depth: nat,
) -> Trace
    decreases depth, 0int, steps.len() - k,
{
    if k < 0 || k >= steps.len() {
        Trace { out: Seq::empty(), visited, order: Seq::empty(), failure: None }
    } else {
        match steps[k] {
            StepView::Emit(t) => {
                let rest = run(files, i, steps, k + 1, visited, depth);
                Trace {
                    out: seq![(files[i].0@, t)] + rest.out,
                    visited: rest.visited,
                    order: rest.order,
                    failure: rest.failure,
                }
            },
            StepView::Follow(p) => match resolve_spec(p, files[i].0@) {
                Err(e) => stopped(visited, FailureView::Refused(e)),
                Ok(f) => {
                    let j = index_in(files, f, 0);
                    if j < 0 {
                        stopped(visited, FailureView::Missing(f))
                    } else if visited[j] {
                        run(files, i, steps, k + 1, visited, depth)
                    } else if depth == 0 {
                        stopped(visited, FailureView::Exhausted)
                    } else {
                        let sub = visit(files, j, visited, (depth - 1) as nat);
                        if sub.failure is Some {
                            sub
                        } else {
                            let rest = run(files, i, steps, k + 1, sub.visited, depth);
                            Trace {
                                out: sub.out + rest.out,
                                visited: rest.visited,
                                order: sub.order + rest.order,
                                failure: rest.failure,
                            }
                        }
                    }
                },
            },
        }
    }
}

pub open spec fn none_visited(n: nat) -> Seq<bool> {
    Seq::new(n, |x: int| false)
}

/// Exploration from `entry` over the parsed files `files`.
pub open spec fn explore_trace(files: Seq<(FileRef, Node)>, entry: FileView) -> Trace {
    visit(files, index_in(files, entry, 0), none_visited(files.len()), files.len())
}

pub open spec fn explore_spec(files: Seq<(FileRef, Node)>, entry: FileView) -> Result<
    Seq<(FileView, Seq<u8>)>,
    ExploreErrorView,
> {
    if index_in(files, entry, 0) < 0 {
        Err(ExploreErrorView::Missing(entry))
    } else {
        let t = explore_trace(files, entry);
        match t.failure {
            None => Ok(t.out),
            Some(FailureView::Refused(e)) => Err(ExploreErrorView::Refused(e)),
            Some(FailureView::Missing(f)) => Err(ExploreErrorView::Missing(f)),
            Some(FailureView::Exhausted) => Err(ExploreErrorView::Missing(entry)),
        }
    }
}

/// The position of `f` among the files given, or `None`.
fn find_file(files: &Vec<(FileRef, Node)>, f: &FileRef) -> (r: Option<usize>)
    ensures
        match r {
            Some(j) => j < files@.len() && j == index_in(files@, f@, 0),
            None => index_in(files@, f@, 0) < 0,
        },
{
    let mut j: usize = 0;
    while j < files.len()
        invariant
            0 <= j <= files@.len(),
            index_in(files@, f@, 0) == index_in(files@, f@, j as int),
        decreases files@.len() - j,
    {
        if files[j].0.same(f) {
            return Some(j);
        }
        j = j + 1;
    }
    None
}

fn visit_exec(
    files: &Vec<(FileRef, Node)>,
    i: usize,
    visited: &mut Vec<bool>,
    depth: usize,
    out: &mut Vec<Item>,
    order: &mut Vec<usize>,
) -> (failure: Option<Failure>)
    requires
        i < files@.len(),
        old(visited)@.len() == files@.len(),
    ensures
        final(visited)@.len() == old(visited)@.len(),
        ({
            let t = visit(files@, i as int, old(visited)@, depth as nat);
            &&& failure_view(failure) == t.failure
            &&& failure is None ==> {
                &&& final(visited)@ == t.visited
                &&& items_view(final(out)@) == items_view(old(out)@) + t.out
                &&& final(order)@.map_values(|x: usize| x as int) == old(order)@.map_values(
                    |x: usize| x as int,
                ) + t.order
            }
        }),
    decreases depth, 1int, 0int,
{
    visited.set(i, true);
    let ghost before = order@;
    order.push(i);
    assert(order@.map_values(|x: usize| x as int) =~= before.map_values(|x: usize| x as int)
        + seq![i as int]);
    let mut steps: Vec<Step> = Vec::new();
    pre_order(&files[i].1, &mut steps);
    assert(steps_view(steps@) =~= steps_of(files@[i as int].1));
    let r = run_exec(files, i, &steps, visited, depth, out, order);
    proof {
        if r is None {
            let t = run(files@, i as int, steps_view(steps@), 0, old(visited)@.update(i as int, true), depth as nat);
            assert(order@.map_values(|x: usize| x as int) =~= old(order)@.map_values(
                |x: usize| x as int,
            ) + (seq![i as int] + t.order));
        }
    }
    r
}

fn run_exec(
    files: &Vec<(FileRef, Node)>,
    i: usize,
    steps: &Vec<Step>,
    visited: &mut Vec<bool>,
    depth: usize,
    out: &mut Vec<Item>,
    order: &mut Vec<usize>,
) -> (failure: Option<Failure>)
    requires
        i < files@.len(),
        old(visited)@.len() == files@.len(),
    ensures
        final(visited)@.len() == old(visited)@.len(),
        ({
            let t = run(files@, i as int, steps_view(steps@), 0, old(visited)@, depth as nat);
            &&& failure_view(failure) == t.failure
            &&& failure is None ==> {
                &&& final(visited)@ == t.visited
                &&& items_view(final(out)@) == items_view(old(out)@) + t.out
                &&& final(order)@.map_values(|x: usize| x as int) == old(order)@.map_values(
                    |x: usize| x as int,
                ) + t.order
            }
        }),
    decreases depth, 0int, steps@.len(),
{
    let ghost sv = steps_view(steps@);
    let ghost whole = run(files@, i as int, sv, 0, old(visited)@, depth as nat);
    let ghost out0 = items_view(out@);
    let ghost order0 = order@.map_values(|x: usize| x as int);
    let mut k: usize = 0;
    let ghost mut done: Seq<(FileView, Seq<u8>)> = Seq::empty();
    let ghost mut seen: Seq<int> = Seq::empty();
    assert(out0 =~= out0 + done);
    assert(order0 =~= order0 + seen);
    while k < steps.len()
        invariant
            i < files@.len(),
            visited@.len() == files@.len(),
            old(visited)@.len() == files@.len(),
            0 <= k <= steps@.len(),
            sv == steps_view(steps@),
            whole == run(files@, i as int, sv, 0, old(visited)@, depth as nat),
            out0 == items_view(old(out)@),
            order0 == old(order)@.map_values(|x: usize| x as int),
            ({
                let t = run(files@, i as int, sv, k as int, visited@, depth as nat);
                &&& whole.failure == t.failure
                &&& whole.visited == t.visited
                &&& items_view(out@) == out0 + done
                &&& whole.out == done + t.out
                &&& order@.map_values(|x: usize| x as int) == order0 + seen
                &&& whole.order == seen + t.order
            }),
        decreases steps@.len() - k,
    {
        match &steps[k] {
            Step::Emit(text) => {
                let ghost before = out@;
                out.push(Item { file: files[i].0.copy(), text: copy_bytes(text.as_slice()) });
                let ghost e = (files@[i as int].0@, text@);
                assert(items_view(out@) =~= items_view(before).push(e));
                assert(items_view(out@) =~= out0 + (done + seq![e]));
                assert(whole.out =~= (done + seq![e]) + run(
                    files@,
                    i as int,
                    sv,
                    k + 1,
                    visited@,
                    depth as nat,
                ).out);
                proof {
                    done = done + seq![e];
                }
            },
            Step::Follow(p) => {
                assert(sv[k as int] == StepView::Follow(p@));
                match resolve(p.as_slice(), &files[i].0) {
                    Err(e) => {
                        return Some(Failure::Refused(e));
                    },
                    Ok(f) => {
                        match find_file(files, &f) {
                            None => {
                                return Some(Failure::Missing(f));
                            },
                            Some(j) => {
                                if !visited[j] {
                                    if depth == 0 {
                                        return Some(Failure::Exhausted);
                                    }
                                    let ghost v_before = visited@;
                                    let r = visit_exec(files, j, visited, depth - 1, out, order);
                                    if r.is_some() {
                                        return r;
                                    }
                                    let ghost sub = visit(
                                        files@,
                                        j as int,
                                        v_before,
                                        (depth - 1) as nat,
                                    );
                                    assert(items_view(out@) =~= out0 + (done + sub.out));
                                    assert(order@.map_values(|x: usize| x as int) =~= order0 + (
                                    seen + sub.order));
                                    let ghost rest = run(
                                        files@,
                                        i as int,
                                        sv,
                                        k + 1,
                                        visited@,
                                        depth as nat,
                                    );
                                    assert(whole.out =~= (done + sub.out) + rest.out);
                                    assert(whole.order =~= (seen + sub.order) + rest.order);
                                    proof {
                                        done = done + sub.out;
                                        seen = seen + sub.order;
                                    }
                                }
                            },
                        }
                    },
                }
            },
        }
        k = k + 1;
    }
    assert(done + Seq::<(FileView, Seq<u8>)>::empty() =~= done);
    assert(seen + Seq::<int>::empty() =~= seen);
    None
}

/// The number of files not yet visited.
pub open spec fn unvisited(s: Seq<bool>) -> nat
    decreases s.len(),
{
    if s.len() == 0 {
        0
    } else {
        unvisited(s.drop_last()) + if s.last() {
            0nat
        } else {
            1nat
        }
    }
}

/// Every file visited in `a` is visited in `b`.
pub open spec fn grows(a: Seq<bool>, b: Seq<bool>) -> bool {
    a.len() == b.len() && forall|x: int| 0 <= x < a.len() && #[trigger] a[x] ==> b[x]
}

/// The files a trace visited, starting from `v`, are each visited once, were
/// not visited before, and are visited after.
pub open spec fn visits_fresh(t: Trace, v: Seq<bool>) -> bool {
    &&& t.order.no_duplicates()
    &&& forall|m: int|
        0 <= m < t.order.len() ==> 0 <= #[trigger] t.order[m] < v.len() && !v[t.order[m]]
            && t.visited[t.order[m]]
}

/// Every literal path in every file names one of the files.
pub open spec fn links_resolve(files: Seq<(FileRef, Node)>) -> bool {
    forall|x: int, k: int|
        0 <= x < files.len() && 0 <= k < steps_of(files[x].1).len() ==> match #[trigger] steps_of(
            files[x].1,
        )[k] {
            StepView::Follow(p) => match resolve_spec(p, files[x].0@) {
                Ok(f) => index_in(files, f, 0) >= 0,
                Err(_) => false,
            },
            StepView::Emit(_) => true,
        }
}

proof fn lemma_unvisited_mark(s: Seq<bool>, j: int)
    requires
        0 <= j < s.len(),
        !s[j],
    ensures
        unvisited(s.update(j, true)) + 1 == unvisited(s),
    decreases s.len(),
{
    let t = s.update(j, true);
    if j == s.len() - 1 {
        assert(t.drop_last() =~= s.drop_last());
    } else {
        lemma_unvisited_mark(s.drop_last(), j);
        assert(t.drop_last() =~= s.drop_last().update(j, true));
    }
}

proof fn lemma_unvisited_grows(a: Seq<bool>, b: Seq<bool>)
    requires
        grows(a, b),
    ensures
        unvisited(b) <= unvisited(a),
    decreases a.len(),
{
    if a.len() > 0 {
        assert(a.last() ==> b.last());
        lemma_unvisited_grows(a.drop_last(), b.drop_last());
    }
}

proof fn lemma_unvisited_none(n: nat)
    ensures
        unvisited(none_visited(n)) == n,
    decreases n,
{
    if n > 0 {
        lemma_unvisited_none((n - 1) as nat);
        assert(none_visited(n).drop_last() =~= none_visited((n - 1) as nat));
    }
}

proof fn lemma_index_in_bounds(files: Seq<(FileRef, Node)>, f: FileView, start: int)
    requires
        0 <= start,
        index_in(files, f, start) >= 0,
    ensures
        start <= index_in(files, f, start) < files.len(),
        files[index_in(files, f, start)].0@ == f,
    decreases files.len() - start,
{
    if start < files.len() && files[start].0@ != f {
        lemma_index_in_bounds(files, f, start + 1);
    }
}

proof fn lemma_visit(files: Seq<(FileRef, Node)>, i: int, v: Seq<bool>, depth: nat)
    requires
        0 <= i < files.len(),
        v.len() == files.len(),
        !v[i],
        unvisited(v) <= depth + 1,
    ensures
        ({
            let t = visit(files, i, v, depth);
            &&& t.failure != Some(FailureView::Exhausted)
            &&& t.failure is None ==> grows(v, t.visited) && visits_fresh(t, v)
            &&& links_resolve(files) ==> t.failure is None
        }),
    decreases depth, 1int, 0int,
{
    let v1 = v.update(i, true);
    lemma_unvisited_mark(v, i);
    let steps = steps_of(files[i].1);
    lemma_run(files, i, steps, 0, v1, depth);
    let r = run(files, i, steps, 0, v1, depth);
    let t = visit(files, i, v, depth);
    if r.failure is None {
        assert(grows(v, t.visited)) by {
            assert forall|x: int| 0 <= x < v.len() && #[trigger] v[x] implies t.visited[x] by {
                assert(v1[x]);
            }
        }
        assert(t.order == seq![i] + r.order);
        assert(forall|m: int| 0 <= m < r.order.len() ==> #[trigger] r.order[m] != i);
        assert forall|m: int| 0 <= m < t.order.len() implies 0 <= #[trigger] t.order[m] < v.len()
            && !v[t.order[m]] && t.visited[t.order[m]] by {
            if m == 0 {
                assert(v1[i]);
            } else {
                assert(t.order[m] == r.order[m - 1]);
            }
        }
        assert(t.order.no_duplicates()) by {
            assert forall|a: int, b: int|
                0 <= a < t.order.len() && 0 <= b < t.order.len() && a != b implies t.order[a]
                != t.order[b] by {
                if a > 0 {
                    assert(t.order[a] == r.order[a - 1]);
                }
                if b > 0 {
                    assert(t.order[b] == r.order[b - 1]);
                }
            }
        }
    }
}

proof fn lemma_run(
    files: Seq<(FileRef, Node)>,
    i: int,
    steps: Seq<StepView>,
    k: int,
    v: Seq<bool>,
    depth: nat,
)
    requires
        0 <= i < files.len(),
        v.len() == files.len(),
        v[i],
        unvisited(v) <= depth,
        steps == steps_of(files[i].1),
        0 <= k,
    ensures
        ({
            let t = run(files, i, steps, k, v, depth);
            &&& t.failure != Some(FailureView::Exhausted)
            &&& t.failure is None ==> grows(v, t.visited) && visits_fresh(t, v)
            &&& links_resolve(files) ==> t.failure is None
        }),
    decreases depth, 0int, steps.len() - k,
{
    let t = run(files, i, steps, k, v, depth);
    if k >= steps.len() {
        return;
    }
    if links_resolve(files) {
        assert(match steps_of(files[i].1)[k] {
            StepView::Follow(p) => match resolve_spec(p, files[i].0@) {
                Ok(f) => index_in(files, f, 0) >= 0,
                Err(_) => false,
            },
            StepView::Emit(_) => true,
        });
    }
    match steps[k] {
        StepView::Emit(_) => {
            lemma_run(files, i, steps, k + 1, v, depth);
        },
        StepView::Follow(p) => match resolve_spec(p, files[i].0@) {
            Err(_) => {},
            Ok(f) => {
                let j = index_in(files, f, 0);
                if j >= 0 {
                    lemma_index_in_bounds(files, f, 0);
                    if v[j] {
                        lemma_run(files, i, steps, k + 1, v, depth);
                    } else {
                        lemma_unvisited_mark(v, j);
                        lemma_visit(files, j, v, (depth - 1) as nat);
                        let sub = visit(files, j, v, (depth - 1) as nat);
                        if sub.failure is None {
                            lemma_unvisited_grows(v, sub.visited);
                            assert(sub.visited[i]);
                            lemma_run(files, i, steps, k + 1, sub.visited, depth);
                            let rest = run(files, i, steps, k + 1, sub.visited, depth);
                            if rest.failure is None {
                                assert(t.order == sub.order + rest.order);
                                assert(grows(v, t.visited)) by {
                                    assert forall|x: int|
                                        0 <= x < v.len() && #[trigger] v[x] implies t.visited[x] by {
                                        assert(sub.visited[x]);
                                    }
                                }
                                assert forall|m: int| 0 <= m < t.order.len() implies 0
                                    <= #[trigger] t.order[m] < v.len() && !v[t.order[m]]
                                    && t.visited[t.order[m]] by {
                                    if m < sub.order.len() {
                                        assert(t.order[m] == sub.order[m]);
                                        assert(sub.visited[sub.order[m]]);
                                    } else {
                                        let x = rest.order[m - sub.order.len()];
                                        assert(t.order[m] == x);
                                        assert(!sub.visited[x]);
                                        assert(sub.visited[x] || !v[x]);
                                    }
                                }
                                assert(t.order.no_duplicates()) by {
                                    assert forall|a: int, b: int|
                                        0 <= a < t.order.len() && 0 <= b < t.order.len() && a
                                            != b implies t.order[a] != t.order[b] by {
                                        let n = sub.order.len();
                                        if a < n && b >= n {
                                            assert(sub.visited[sub.order[a]]);
                                            assert(!sub.visited[rest.order[b - n]]);
                                        } else if a >= n && b < n {
                                            assert(sub.visited[sub.order[b]]);
                                            assert(!sub.visited[rest.order[a - n]]);
                                        } else if a < n && b < n {
                                            assert(t.order[a] == sub.order[a]);
                                            assert(t.order[b] == sub.order[b]);
                                        } else {
                                            assert(t.order[a] == rest.order[a - n]);
                                            assert(t.order[b] == rest.order[b - n]);
                                        }
                                    }
                                }
                            }
                        }
                    }
                }
            },
        },
    }
}

/// Explores the files reachable from `entry` among the parsed files `files`,
/// and returns the source text of each target node with the file it came
/// from, in the order of a depth-first walk that visits an imported or
/// included file at the point of its first mention.
pub fn explore(files: &Vec<(FileRef, Node)>, entry: &FileRef) -> (r: Result<Vec<Item>, ExploreError>)
    ensures
        match r {
            Ok(items) => explore_spec(files@, entry@) == Ok::<
                Seq<(FileView, Seq<u8>)>,
                ExploreErrorView,
            >(items_view(items@)),
            Err(e) => explore_spec(files@, entry@) == Err::<
                Seq<(FileView, Seq<u8>)>,
                ExploreErrorView,
            >(e@),
        },
{
    let start = match find_file(files, entry) {
        Some(j) => j,
        None => {
            return Err(ExploreError::Missing(entry.copy()));
        },
    };
    let n = files.len();
    let mut visited: Vec<bool> = Vec::new();
    let mut x: usize = 0;
    while x < n
        invariant
            0 <= x <= n,
            n == files@.len(),
            visited@ == Seq::new(x as nat, |y: int| false),
        decreases n - x,
    {
        visited.push(false);
        assert(visited@ =~= Seq::new((x + 1) as nat, |y: int| false));
        x = x + 1;
    }
    assert(visited@ =~= none_visited(files@.len()));
    proof {
        lemma_unvisited_none(files@.len());
        lemma_visit(files@, start as int, visited@, files@.len());
    }
    let mut out: Vec<Item> = Vec::new();
    let mut order: Vec<usize> = Vec::new();
    let failure = visit_exec(files, start, &mut visited, n, &mut out, &mut order);
    assert(items_view(Seq::<Item>::empty()) =~= Seq::<(FileView, Seq<u8>)>::empty());
    match failure {
        None => {
            assert(items_view(out@) =~= explore_trace(files@, entry@).out);
            Ok(out)
        },
        Some(Failure::Refused(e)) => Err(ExploreError::Refused(e)),
        Some(Failure::Missing(f)) => Err(ExploreError::Missing(f)),
        Some(Failure::Exhausted) => {
            assert(false);
            Err(ExploreError::Missing(entry.copy()))
        },
    }
}

/// Exploration visits each file at most once, however many files import or
/// pulls it in, and never stops for depth.
pub proof fn lemma_each_file_visited_once(files: Seq<(FileRef, Node)>, entry: FileView)
    requires
        index_in(files, entry, 0) >= 0,
    ensures
        explore_trace(files, entry).failure != Some(FailureView::Exhausted),
        explore_trace(files, entry).failure is None ==> explore_trace(
            files,
            entry,
        ).order.no_duplicates(),
{
    lemma_index_in_bounds(files, entry, 0);
    lemma_unvisited_none(files.len());
    lemma_visit(files, index_in(files, entry, 0), none_visited(files.len()), files.len());
}

/// Where every literal path names one of the files, exploration succeeds,
/// mutual imports or includes notwithstanding.
pub proof fn lemma_cycles_complete(files: Seq<(FileRef, Node)>, entry: FileView)
    requires
        index_in(files, entry, 0) >= 0,
        links_resolve(files),
    ensures
        explore_spec(files, entry) is Ok,
        explore_trace(files, entry).order.no_duplicates(),
{
    lemma_each_file_visited_once(files, entry);
    lemma_index_in_bounds(files, entry, 0);
    lemma_unvisited_none(files.len());
    lemma_visit(files, index_in(files, entry, 0), none_visited(files.len()), files.len());
}

/// The items of `s` that come from file `f`, in order.
pub open spec fn of_file(s: Seq<(FileView, Seq<u8>)>, f: FileView) -> Seq<(FileView, Seq<u8>)>
    decreases s.len(),
{
    if s.len() == 0 {
        s
    } else {
        of_file(s.drop_last(), f) + if s.last().0 == f {
            seq![s.last()]
        } else {
            Seq::empty()
        }
    }
}

/// The items that the target nodes among `steps[k..]` of file `f` give.
pub open spec fn own_items(f: FileView, steps: Seq<StepView>, k: int) -> Seq<(FileView, Seq<u8>)>
    decreases steps.len() - k,
{
    if k < 0 || k >= steps.len() {
        Seq::empty()
    } else {
        match steps[k] {
            StepView::Emit(t) => seq![(f, t)] + own_items(f, steps, k + 1),
            StepView::Follow(_) => own_items(f, steps, k + 1),
        }
    }
}

/// No two of the files share an identifier.
pub open spec fn distinct_ids(files: Seq<(FileRef, Node)>) -> bool {
    forall|a: int, b: int|
        0 <= a < files.len() && 0 <= b < files.len() && a != b ==> #[trigger] files[a].0@
            != #[trigger] files[b].0@
}

/// Each file's items appear exactly as its target nodes give them if the
/// file was visited, and not at all otherwise.
pub open spec fn items_once(files: Seq<(FileRef, Node)>, t: Trace, skip: int) -> bool {
    forall|x: int|
        0 <= x < files.len() && x != skip ==> #[trigger] of_file(t.out, files[x].0@) == if t.order.contains(x) {
            own_items(files[x].0@, steps_of(files[x].1), 0)
        } else {
            Seq::<(FileView, Seq<u8>)>::empty()
        }
}

proof fn lemma_of_file_add(a: Seq<(FileView, Seq<u8>)>, b: Seq<(FileView, Seq<u8>)>, f: FileView)
    ensures
        of_file(a + b, f) == of_file(a, f) + of_file(b, f),
    decreases b.len(),
{
    if b.len() == 0 {
        assert(a + b =~= a);
        assert(of_file(a, f) + of_file(b, f) =~= of_file(a, f));
    } else {
        lemma_of_file_add(a, b.drop_last(), f);
        assert((a + b).drop_last() =~= a + b.drop_last());
        assert((a + b).last() == b.last());
        let tail = if b.last().0 == f {
            seq![b.last()]
        } else {
            Seq::<(FileView, Seq<u8>)>::empty()
        };
        assert(of_file(a, f) + of_file(b.drop_last(), f) + tail =~= of_file(a, f) + (of_file(
            b.drop_last(),
            f,
        ) + tail));
    }
}

proof fn lemma_of_file_one(e: (FileView, Seq<u8>), f: FileView)
    ensures
        of_file(seq![e], f) == if e.0 == f {
            seq![e]
        } else {
            Seq::<(FileView, Seq<u8>)>::empty()
        },
{
    assert(seq![e].drop_last() =~= Seq::<(FileView, Seq<u8>)>::empty());
    assert(seq![e].last() == e);
    assert(of_file(Seq::<(FileView, Seq<u8>)>::empty(), f) == Seq::<(FileView, Seq<u8>)>::empty());
    assert(Seq::<(FileView, Seq<u8>)>::empty() + seq![e] =~= seq![e]);
    assert(Seq::<(FileView, Seq<u8>)>::empty() + Seq::<(FileView, Seq<u8>)>::empty()
        =~= Seq::<(FileView, Seq<u8>)>::empty());
}

proof fn lemma_contains_add(a: Seq<int>, b: Seq<int>, x: int)
    ensures
        (a + b).contains(x) == (a.contains(x) || b.contains(x)),
{
    if a.contains(x) {
        let m = choose|m: int| 0 <= m < a.len() && a[m] == x;
        assert((a + b)[m] == x);
    }
    if b.contains(x) {
        let m = choose|m: int| 0 <= m < b.len() && b[m] == x;
        assert((a + b)[a.len() + m] == x);
    }
    if (a + b).contains(x) {
        let m = choose|m: int| 0 <= m < (a + b).len() && (a + b)[m] == x;
        if m < a.len() {
            assert(a[m] == x);
        } else {
            assert(b[m - a.len()] == x);
        }
    }
}

proof fn lemma_visit_items(files: Seq<(FileRef, Node)>, i: int, v: Seq<bool>, depth: nat)
    requires
        0 <= i < files.len(),
        v.len() == files.len(),
        !v[i],
        unvisited(v) <= depth + 1,
        distinct_ids(files),
        visit(files, i, v, depth).failure is None,
    ensures
        items_once(files, visit(files, i, v, depth), -1),
    decreases depth, 1int, 0int,
{
    let v1 = v.update(i, true);
    lemma_unvisited_mark(v, i);
    let steps = steps_of(files[i].1);
    lemma_run(files, i, steps, 0, v1, depth);
    lemma_run_items(files, i, steps, 0, v1, depth);
    let r = run(files, i, steps, 0, v1, depth);
    let t = visit(files, i, v, depth);
    assert(t.order == seq![i] + r.order);
    assert forall|x: int| 0 <= x < files.len() && x != -1 implies #[trigger] of_file(
        t.out,
        files[x].0@,
    ) == if t.order.contains(x) {
        own_items(files[x].0@, steps_of(files[x].1), 0)
    } else {
        Seq::<(FileView, Seq<u8>)>::empty()
    } by {
        lemma_contains_add(seq![i], r.order, x);
        assert(seq![i][0] == i);
        if x == i {
            assert(seq![i].contains(i));
        } else {
            assert(!seq![i].contains(x));
        }
    }
}

proof fn lemma_run_items(
    files: Seq<(FileRef, Node)>,
    i: int,
    steps: Seq<StepView>,
    k: int,
    v: Seq<bool>,
    depth: nat,
)
    requires
        0 <= i < files.len(),
        v.len() == files.len(),
        v[i],
        unvisited(v) <= depth,
        steps == steps_of(files[i].1),
        0 <= k,
        distinct_ids(files),
        run(files, i, steps, k, v, depth).failure is None,
    ensures
        items_once(files, run(files, i, steps, k, v, depth), i),
        of_file(run(files, i, steps, k, v, depth).out, files[i].0@) == own_items(
            files[i].0@,
            steps,
            k,
        ),
        !run(files, i, steps, k, v, depth).order.contains(i),
    decreases depth, 0int, steps.len() - k,
{
    let t = run(files, i, steps, k, v, depth);
    let fi = files[i].0@;
    lemma_run(files, i, steps, k, v, depth);
    if !(k >= steps.len()) {
        assert(t.order.contains(i) ==> false) by {
            if t.order.contains(i) {
                let m = choose|m: int| 0 <= m < t.order.len() && t.order[m] == i;
                assert(!v[t.order[m]]);
            }
        }
    }
    if k >= steps.len() {
        assert(of_file(Seq::<(FileView, Seq<u8>)>::empty(), fi) == Seq::<(FileView, Seq<u8>)>::empty());
        assert forall|x: int| 0 <= x < files.len() && x != i implies #[trigger] of_file(
            t.out,
            files[x].0@,
        ) == if t.order.contains(x) {
            own_items(files[x].0@, steps_of(files[x].1), 0)
        } else {
            Seq::<(FileView, Seq<u8>)>::empty()
        } by {
            assert(of_file(Seq::<(FileView, Seq<u8>)>::empty(), files[x].0@)
                == Seq::<(FileView, Seq<u8>)>::empty());
        }
        return;
    }
    match steps[k] {
        StepView::Emit(text) => {
            lemma_run_items(files, i, steps, k + 1, v, depth);
            let rest = run(files, i, steps, k + 1, v, depth);
            let e = (fi, text);
            lemma_of_file_add(seq![e], rest.out, fi);
            lemma_of_file_one(e, fi);
            assert forall|x: int| 0 <= x < files.len() && x != i implies #[trigger] of_file(
                t.out,
                files[x].0@,
            ) == if t.order.contains(x) {
                own_items(files[x].0@, steps_of(files[x].1), 0)
            } else {
                Seq::<(FileView, Seq<u8>)>::empty()
            } by {
                lemma_of_file_add(seq![e], rest.out, files[x].0@);
                lemma_of_file_one(e, files[x].0@);
                assert(files[x].0@ != fi);
                assert(Seq::<(FileView, Seq<u8>)>::empty() + of_file(rest.out, files[x].0@)
                    =~= of_file(rest.out, files[x].0@));
            }
        },
        StepView::Follow(p) => match resolve_spec(p, fi) {
            Err(_) => {},
            Ok(f) => {
                let j = index_in(files, f, 0);
                if j >= 0 {
                    lemma_index_in_bounds(files, f, 0);
                    if v[j] {
                        lemma_run_items(files, i, steps, k + 1, v, depth);
                    } else {
                        lemma_unvisited_mark(v, j);
                        lemma_visit(files, j, v, (depth - 1) as nat);
                        lemma_visit_items(files, j, v, (depth - 1) as nat);
                        let sub = visit(files, j, v, (depth - 1) as nat);
                        lemma_unvisited_grows(v, sub.visited);
                        assert(sub.visited[i]);
                        lemma_run(files, i, steps, k + 1, sub.visited, depth);
                        lemma_run_items(files, i, steps, k + 1, sub.visited, depth);
                        let rest = run(files, i, steps, k + 1, sub.visited, depth);
                        assert(t.out == sub.out + rest.out);
                        assert(t.order == sub.order + rest.order);
                        assert(!sub.order.contains(i)) by {
                            if sub.order.contains(i) {
                                let m = choose|m: int| 0 <= m < sub.order.len() && sub.order[m] == i;
                                assert(!v[sub.order[m]]);
                            }
                        }
                        lemma_of_file_add(sub.out, rest.out, fi);
                        assert(Seq::<(FileView, Seq<u8>)>::empty() + own_items(fi, steps, k + 1)
                            =~= own_items(fi, steps, k + 1));
                        assert forall|x: int| 0 <= x < files.len() && x != i implies #[trigger] of_file(
                            t.out,
                            files[x].0@,
                        ) == if t.order.contains(x) {
                            own_items(files[x].0@, steps_of(files[x].1), 0)
                        } else {
                            Seq::<(FileView, Seq<u8>)>::empty()
                        } by {
                            lemma_of_file_add(sub.out, rest.out, files[x].0@);
                            lemma_contains_add(sub.order, rest.order, x);
                            assert(of_file(sub.out, files[x].0@) == if sub.order.contains(x) {
                                own_items(files[x].0@, steps_of(files[x].1), 0)
                            } else {
                                Seq::<(FileView, Seq<u8>)>::empty()
                            });
                            if sub.order.contains(x) {
                                let m = choose|m: int| 0 <= m < sub.order.len() && sub.order[m] == x;
                                assert(sub.visited[sub.order[m]]);
                                if rest.order.contains(x) {
                                    let n = choose|n: int| 0 <= n < rest.order.len() && rest.order[n] == x;
                                    assert(!sub.visited[rest.order[n]]);
                                }
                            }
                            let own = own_items(files[x].0@, steps_of(files[x].1), 0);
                            assert(own + Seq::<(FileView, Seq<u8>)>::empty() =~= own);
                            assert(Seq::<(FileView, Seq<u8>)>::empty() + own =~= own);
                            assert(Seq::<(FileView, Seq<u8>)>::empty()
                                + Seq::<(FileView, Seq<u8>)>::empty() =~= Seq::<(FileView, Seq<u8>)>::empty());
                        }
                    }
                }
            },
        },
    }
}

/// Where no two files share an identifier and exploration succeeds, the
/// items from each file are that file's target nodes, each exactly once, if
/// the file was visited, and none otherwise: a file that several files
/// import or include gives its nodes once.
pub proof fn lemma_nodes_emitted_once(files: Seq<(FileRef, Node)>, entry: FileView)
    requires
        index_in(files, entry, 0) >= 0,
        distinct_ids(files),
        explore_trace(files, entry).failure is None,
    ensures
        items_once(files, explore_trace(files, entry), -1),
{
    lemma_index_in_bounds(files, entry, 0);
    lemma_unvisited_none(files.len());
    lemma_visit_items(files, index_in(files, entry, 0), none_visited(files.len()), files.len());
}

} // verus!
