//! The parts of a file's syntax tree that exploration reads.
use vstd::prelude::*;

use crate::bytes::copy_bytes;
use crate::path::AT;

verus! {

/// The kinds of node that exploration tells apart.
#[derive(Debug, Clone, Copy, PartialEq, Eq, Structural)]
pub enum NodeKind {
    /// A node of the designated kind (an equation).
    Target,
    /// An `import` of another file.
    Import,
    /// An inclusion of another file.
    Include,
    /// Anything else.
    Other,
}

/// A node of a file's syntax tree: its kind, its exact source text, the
/// literal path of an import or inclusion (none where the path is computed),
/// and its children in source order.
pub struct Node {
    pub kind: NodeKind,
    pub text: Vec<u8>,
    pub path: Option<Vec<u8>>,
    pub children: Vec<Node>,
}

/// What a node asks of exploration, in the order of a depth-first walk.
pub enum Step {
    /// Emit the source text of a target node.
    Emit(Vec<u8>),
    /// Visit the file that a literal path names.
    Follow(Vec<u8>),
}

pub enum StepView {
    Emit(Seq<u8>),
    Follow(Seq<u8>),
}

impl View for Step {
    type V = StepView;

    open spec fn view(&self) -> StepView {
        match self {
            Step::Emit(t) => StepView::Emit(t@),
            Step::Follow(p) => StepView::Follow(p@),
        }
    }
}

pub open spec fn steps_view(s: Seq<Step>) -> Seq<StepView> {
    s.map_values(|x: Step| x@)
}

/// Whether a literal path names a package, which exploration leaves alone.
pub open spec fn names_package(p: Seq<u8>) -> bool {
    p.len() > 0 && p[0] == AT
}

/// What the node itself asks, apart from its children.
pub open spec fn own_steps(n: Node) -> Seq<StepView> {
    match n.kind {
        NodeKind::Target => seq![StepView::Emit(n.text@)],
        NodeKind::Import | NodeKind::Include => match n.path {
            Some(p) => if names_package(p@) {
                Seq::empty()
            } else {
                seq![StepView::Follow(p@)]
            },
            None => Seq::empty(),
        },
        NodeKind::Other => Seq::empty(),
    }
}

/// The steps of a depth-first, pre-order walk of `n`.
pub open spec fn steps_of(n: Node) -> Seq<StepView>
    decreases n,
{
    own_steps(n) + steps_of_all(n.children@)
}

pub open spec fn steps_of_all(s: Seq<Node>) -> Seq<StepView>
    decreases s,
{
    if s.len() == 0 {
        Seq::empty()
    } else {
        steps_of_all(s.drop_last()) + steps_of(s.last())
    }
}

fn own_steps_exec(n: &Node, out: &mut Vec<Step>)
    ensures
        steps_view(final(out)@) == steps_view(old(out)@) + own_steps(*n),
{
    let ghost before = out@;
    match n.kind {
        NodeKind::Target => {
            out.push(Step::Emit(copy_bytes(n.text.as_slice())));
        },
        NodeKind::Import | NodeKind::Include => match &n.path {
            Some(p) => if !(p.len() > 0 && p[0] == AT) {
                out.push(Step::Follow(copy_bytes(p.as_slice())));
            },
            None => {},
        },
        NodeKind::Other => {},
    }
    assert(steps_view(out@) =~= steps_view(before) + own_steps(*n));
}

/// Appends the steps of a depth-first, pre-order walk of `n` to `out`.
pub fn pre_order(n: &Node, out: &mut Vec<Step>)
    ensures
        steps_view(final(out)@) == steps_view(old(out)@) + steps_of(*n),
    decreases n,
{
    own_steps_exec(n, out);
    let ghost mid = steps_view(out@);
    let mut i: usize = 0;
    assert(n.children@.subrange(0, 0) =~= Seq::<Node>::empty());
    while i < n.children.len()
        invariant
            0 <= i <= n.children@.len(),
            steps_view(out@) == mid + steps_of_all(n.children@.subrange(0, i as int)),
        decreases n.children@.len() - i,
    {
        let ghost sub = n.children@.subrange(0, i + 1);
        assert(sub.drop_last() =~= n.children@.subrange(0, i as int));
        assert(sub.last() == n.children@[i as int]);
        proof {
            assert(decreases_to!(n => n.children));
        }
        pre_order(&n.children[i], out);
        assert(steps_view(out@) =~= mid + steps_of_all(sub));
        i = i + 1;
    }
    assert(n.children@.subrange(0, n.children@.len() as int) =~= n.children@);
    assert(steps_view(out@) =~= steps_view(old(out)@) + steps_of(*n));
}

} // verus!
