use vstd::prelude::*;

use crate::folder_tree::{kids, FolderTreeNode, FsNodeKind};
use crate::paths::{join_path, join_spec};
use crate::scheduler::{CopyScheduler, OpState};

verus! {

/// One unit of work of a copy run: create the directory `dest`, or copy the
/// file `source` to `dest`. `parent` is the position, in the same plan, of
/// the operation that creates the directory `dest` lies in.
#[derive(Debug)]
pub struct CopyOp {
    pub kind: FsNodeKind,
    pub source: String,
    pub dest: String,
    pub parent: Option<usize>,
}

/// The abstract value of a `CopyOp`.
pub struct OpView {
    pub kind: FsNodeKind,
    pub source: Seq<char>,
    pub dest: Seq<char>,
    pub parent: Option<nat>,
}

impl View for CopyOp {
    type V = OpView;

    open spec fn view(&self) -> OpView {
        OpView {
            kind: self.kind,
            source: self.source@,
            dest: self.dest@,
            parent: opt_nat(self.parent),
        }
    }
}

pub open spec fn opt_nat(p: Option<usize>) -> Option<nat> {
    match p {
        Some(p) => Some(p as nat),
        None => None,
    }
}

pub open spec fn ops_view(ops: Seq<CopyOp>) -> Seq<OpView> {
    ops.map_values(|o: CopyOp| o@)
}

/// The operation that recreates `node` as a directory under `base`.
pub open spec fn dir_op(node: FolderTreeNode, base: Seq<char>, parent: Option<nat>) -> OpView {
    OpView {
        kind: FsNodeKind::Dir,
        source: node.relative_path@,
        dest: join_spec(base, node.name@),
        parent,
    }
}

/// The operation that copies the file `node` into the directory `dir`.
pub open spec fn file_op(node: FolderTreeNode, dir: Seq<char>, parent: Option<nat>) -> OpView {
    OpView {
        kind: FsNodeKind::File,
        source: node.relative_path@,
        dest: join_spec(dir, node.name@),
        parent,
    }
}

/// The plan that recreates the directory `node` under `base`, in pre-order,
/// its first operation standing at position `at` of the whole plan: the
/// directory itself, then each entry in turn, a directory entry with its
/// whole subtree.
pub open spec fn subtree_plan(
    node: FolderTreeNode,
    base: Seq<char>,
    parent: Option<nat>,
    at: nat,
) -> Seq<OpView>
    decreases node, kids(node).len() + 1,
{
    seq![dir_op(node, base, parent)] + entries_plan(
        node,
        join_spec(base, node.name@),
        at,
        kids(node).len(),
    )
}

/// The operations for the first `n` entries of the directory `node`, which
/// is recreated at `dir` by the operation at position `at`.
pub open spec fn entries_plan(node: FolderTreeNode, dir: Seq<char>, at: nat, n: nat) -> Seq<
    OpView,
>
    decreases node, n,
{
    if n == 0 || n > kids(node).len() {
        Seq::empty()
    } else {
        let prev = entries_plan(node, dir, at, (n - 1) as nat);
        let child = *kids(node)[n - 1];
        if child.kind == FsNodeKind::Dir {
            prev + subtree_plan(child, dir, Some(at), at + 1 + prev.len())
        } else {
            prev + seq![file_op(child, dir, Some(at))]
        }
    }
}

/// Appends to `out` the plan that recreates the directory `node` under
/// `base`, its operation depending on `parent`.
fn plan_subtree(
    node: &FolderTreeNode,
    base: &String,
    parent: Option<usize>,
    out: &mut Vec<CopyOp>,
)
    ensures
        ops_view(final(out)@) == ops_view(old(out)@) + subtree_plan(
            *node,
            base@,
            opt_nat(parent),
            old(out)@.len(),
        ),
    decreases node,
{
    let ghost start = out@;
    let at = out.len();
    let dir = join_path(base.as_str(), node.name.as_str());
    out.push(
        CopyOp {
            kind: FsNodeKind::Dir,
            source: node.relative_path.clone(),
            dest: dir.clone(),
            parent,
        },
    );
    assert(ops_view(out@) =~= ops_view(start) + seq![dir_op(*node, base@, opt_nat(parent))]);
    match &node.children {
        Some(children) => {
            let n = children.len();
            for i in 0..n
                invariant
                    n == children@.len(),
                    kids(*node) == children@,
                    dir@ == join_spec(base@, node.name@),
                    at == start.len(),
                    ops_view(out@) == ops_view(start) + seq![dir_op(*node, base@, opt_nat(parent))]
                        + entries_plan(*node, dir@, at as nat, i as nat),
            {
                let ghost before = out@;
                let child: &FolderTreeNode = &children[i];
                let ghost prev = entries_plan(*node, dir@, at as nat, i as nat);
                assert(ops_view(before).len() == before.len());
                assert(before.len() == at + 1 + prev.len());
                assert(*child == *kids(*node)[i as int]);
                if child.kind == FsNodeKind::Dir {
                    plan_subtree(child, &dir, Some(at), out);
                } else {
                    out.push(
                        CopyOp {
                            kind: FsNodeKind::File,
                            source: child.relative_path.clone(),
                            dest: join_path(dir.as_str(), child.name.as_str()),
                            parent: Some(at),
                        },
                    );
                    assert(ops_view(out@) =~= ops_view(before) + seq![
                        file_op(*child, dir@, Some(at as nat)),
                    ]);
                }
                assert(ops_view(out@) =~= ops_view(start) + seq![dir_op(*node, base@, opt_nat(parent))]
                    + entries_plan(*node, dir@, at as nat, (i + 1) as nat));
            }
        },
        None => {
            assert(entries_plan(*node, dir@, at as nat, 0) =~= Seq::empty());
            assert(ops_view(out@) =~= ops_view(start) + seq![dir_op(*node, base@, opt_nat(parent))]
                + entries_plan(*node, dir@, at as nat, 0));
        },
    }
}


/// The plan of a flat copy: the directory `node` recreated under `base`,
/// then each of its entries copied into it as a file.
pub open spec fn flat_plan(node: FolderTreeNode, base: Seq<char>) -> Seq<OpView> {
    seq![dir_op(node, base, None)] + Seq::new(
        kids(node).len(),
        |k: int| file_op(*kids(node)[k], join_spec(base, node.name@), Some(0)),
    )
}

/// Each operation but the first depends on an earlier one, which creates a
/// directory.
pub open spec fn parents_precede(ops: Seq<OpView>) -> bool {
    forall|j: int|
        0 <= j < ops.len() ==> match #[trigger] ops[j].parent {
            Some(p) => p < j && ops[p as int].kind == FsNodeKind::Dir,
            None => j == 0,
        }
}

proof fn lemma_subtree_parents(node: FolderTreeNode, base: Seq<char>, parent: Option<nat>, at: nat)
    ensures
        ({
            let sp = subtree_plan(node, base, parent, at);
            &&& sp.len() >= 1
            &&& sp[0] == dir_op(node, base, parent)
            &&& forall|j: int|
                1 <= j < sp.len() ==> match #[trigger] sp[j].parent {
                    Some(p) => at <= p < at + j && sp[p - at].kind == FsNodeKind::Dir,
                    None => false,
                }
        }),
    decreases node, kids(node).len() + 1,
{
    let dir = join_spec(base, node.name@);
    let n = kids(node).len();
    lemma_entries_parents(node, dir, at, n);
    let sp = subtree_plan(node, base, parent, at);
    let ep = entries_plan(node, dir, at, n);
    assert forall|j: int| 1 <= j < sp.len() implies match #[trigger] sp[j].parent {
        Some(p) => at <= p < at + j && sp[p - at].kind == FsNodeKind::Dir,
        None => false,
    } by {
        assert(sp[j] == ep[j - 1]);
    }
}

proof fn lemma_entries_parents(node: FolderTreeNode, dir: Seq<char>, at: nat, n: nat)
    ensures
        ({
            let ep = entries_plan(node, dir, at, n);
            forall|j: int|
                0 <= j < ep.len() ==> match #[trigger] ep[j].parent {
                    Some(p) => at <= p < at + 1 + j && (p == at || ep[p - at - 1].kind
                        == FsNodeKind::Dir),
                    None => false,
                }
        }),
    decreases node, n,
{
    if n == 0 || n > kids(node).len() {
    } else {
        let prev = entries_plan(node, dir, at, (n - 1) as nat);
        lemma_entries_parents(node, dir, at, (n - 1) as nat);
        let child = *kids(node)[n - 1];
        let ep = entries_plan(node, dir, at, n);
        if child.kind == FsNodeKind::Dir {
            let a2 = at + 1 + prev.len();
            lemma_subtree_parents(child, dir, Some(at), a2);
            let x = subtree_plan(child, dir, Some(at), a2);
            assert forall|j: int| 0 <= j < ep.len() implies match #[trigger] ep[j].parent {
                Some(p) => at <= p < at + 1 + j && (p == at || ep[p - at - 1].kind
                    == FsNodeKind::Dir),
                None => false,
            } by {
                if j < prev.len() {
                    assert(ep[j] == prev[j]);
                } else {
                    let k = j - prev.len();
                    assert(ep[j] == x[k]);
                    if k >= 1 {
                        let p = x[k].parent->0;
                        assert(ep[p - at - 1] == x[p - a2]);
                    }
                }
            }
        } else {
            assert forall|j: int| 0 <= j < ep.len() implies match #[trigger] ep[j].parent {
                Some(p) => at <= p < at + 1 + j && (p == at || ep[p - at - 1].kind
                    == FsNodeKind::Dir),
                None => false,
            } by {
                if j < prev.len() {
                    assert(ep[j] == prev[j]);
                }
            }
        }
    }
}

/// In the plan of a whole tree, each operation but the first waits for an
/// earlier one that creates the directory it writes into.
pub proof fn lemma_plan_parents_precede(node: FolderTreeNode, base: Seq<char>)
    ensures
        parents_precede(subtree_plan(node, base, None, 0)),
{
    lemma_subtree_parents(node, base, None, 0);
}

/// The (path, kind) pairs of the directory `node` and everything under
/// it, recreated under `base`.
pub open spec fn tree_entries(node: FolderTreeNode, base: Seq<char>) -> Set<
    (Seq<char>, FsNodeKind),
>
    decreases node, kids(node).len() + 1,
{
    set![(join_spec(base, node.name@), FsNodeKind::Dir)].union(
        children_entries(node, join_spec(base, node.name@), kids(node).len()),
    )
}

/// The (path, kind) pairs of the first `n` entries of the directory `node`
/// and everything under them, recreated in `dir`.
pub open spec fn children_entries(node: FolderTreeNode, dir: Seq<char>, n: nat) -> Set<
    (Seq<char>, FsNodeKind),
>
    decreases node, n,
{
    if n == 0 || n > kids(node).len() {
        Set::empty()
    } else {
        let child = *kids(node)[n - 1];
        children_entries(node, dir, (n - 1) as nat).union(
            if child.kind == FsNodeKind::Dir {
                tree_entries(child, dir)
            } else {
                set![(join_spec(dir, child.name@), FsNodeKind::File)]
            },
        )
    }
}

/// The (destination, kind) pairs a plan produces.
pub open spec fn plan_entries(ops: Seq<OpView>) -> Set<(Seq<char>, FsNodeKind)> {
    Set::new(
        |e: (Seq<char>, FsNodeKind)|
            exists|j: int| 0 <= j < ops.len() && #[trigger] ops[j].dest == e.0 && ops[j].kind == e.1,
    )
}

proof fn lemma_plan_entries_concat(a: Seq<OpView>, b: Seq<OpView>)
    ensures
        plan_entries(a + b) == plan_entries(a).union(plan_entries(b)),
{
    let ab = a + b;
    assert forall|e: (Seq<char>, FsNodeKind)| #[trigger]
        plan_entries(ab).contains(e) implies plan_entries(a).union(plan_entries(b)).contains(
        e,
    ) by {
        let j = choose|j: int| 0 <= j < ab.len() && #[trigger] ab[j].dest == e.0 && ab[j].kind == e.1;
        if j < a.len() {
            assert(a[j] == ab[j]);
        } else {
            assert(b[j - a.len()] == ab[j]);
        }
    }
    assert forall|e: (Seq<char>, FsNodeKind)| #[trigger]
        plan_entries(a).union(plan_entries(b)).contains(e) implies plan_entries(ab).contains(
        e,
    ) by {
        if plan_entries(a).contains(e) {
            let j = choose|j: int| 0 <= j < a.len() && #[trigger] a[j].dest == e.0 && a[j].kind == e.1;
            assert(ab[j] == a[j]);
        } else {
            let j = choose|j: int| 0 <= j < b.len() && #[trigger] b[j].dest == e.0 && b[j].kind == e.1;
            assert(ab[a.len() + j] == b[j]);
        }
    }
    assert(plan_entries(ab) =~= plan_entries(a).union(plan_entries(b)));
}

proof fn lemma_plan_entries_single(o: OpView)
    ensures
        plan_entries(seq![o]) == set![(o.dest, o.kind)],
{
    let s = seq![o];
    assert(s[0] == o);
    assert(plan_entries(s) =~= set![(o.dest, o.kind)]);
}

proof fn lemma_subtree_entries(node: FolderTreeNode, base: Seq<char>, parent: Option<nat>, at: nat)
    ensures
        plan_entries(subtree_plan(node, base, parent, at)) == tree_entries(node, base),
    decreases node, kids(node).len() + 1,
{
    let dir = join_spec(base, node.name@);
    let n = kids(node).len();
    lemma_children_entries(node, dir, at, n);
    lemma_plan_entries_single(dir_op(node, base, parent));
    lemma_plan_entries_concat(seq![dir_op(node, base, parent)], entries_plan(node, dir, at, n));
}

proof fn lemma_children_entries(node: FolderTreeNode, dir: Seq<char>, at: nat, n: nat)
    ensures
        plan_entries(entries_plan(node, dir, at, n)) == children_entries(node, dir, n),
    decreases node, n,
{
    if n == 0 || n > kids(node).len() {
        assert(plan_entries(Seq::<OpView>::empty()) =~= Set::empty());
    } else {
        let prev = entries_plan(node, dir, at, (n - 1) as nat);
        lemma_children_entries(node, dir, at, (n - 1) as nat);
        let child = *kids(node)[n - 1];
        if child.kind == FsNodeKind::Dir {
            let a2 = at + 1 + prev.len();
            lemma_subtree_entries(child, dir, Some(at), a2);
            lemma_plan_entries_concat(prev, subtree_plan(child, dir, Some(at), a2));
        } else {
            lemma_plan_entries_single(file_op(child, dir, Some(at)));
            lemma_plan_entries_concat(prev, seq![file_op(child, dir, Some(at))]);
        }
    }
}

/// The plan of a tree recreates exactly the tree: the (path, kind) pairs it
/// produces are those of the directory and everything under it.
pub proof fn lemma_plan_recreates_tree(node: FolderTreeNode, base: Seq<char>)
    ensures
        plan_entries(subtree_plan(node, base, None, 0)) == tree_entries(node, base),
{
    lemma_subtree_entries(node, base, None, 0);
}

/// Runs the copy of a tree: how many operations may be in flight at once.
pub struct CopyHandler {
    pub max_in_flight: usize,
}

/// The number of operations a run keeps in flight unless told otherwise.
pub const DEFAULT_MAX_IN_FLIGHT: usize = 64;

impl CopyHandler {
    /// A handler with the default bound on operations in flight.
    pub fn new() -> (r: Self)
        ensures
            r.max_in_flight == DEFAULT_MAX_IN_FLIGHT,
    {
        CopyHandler { max_in_flight: DEFAULT_MAX_IN_FLIGHT }
    }

    /// A handler that keeps at most `max_in_flight` operations in flight;
    /// none where the bound is zero, under which nothing could ever run.
    pub fn with_limit(max_in_flight: usize) -> (r: Option<Self>)
        ensures
            max_in_flight == 0 <==> r is None,
            r matches Some(h) ==> h.max_in_flight == max_in_flight,
    {
        if max_in_flight == 0 {
            None
        } else {
            Some(CopyHandler { max_in_flight })
        }
    }

    /// A scheduler that runs `ops` within this handler's bound.
    pub fn schedule(&self, ops: Vec<CopyOp>) -> (r: CopyScheduler)
        requires
            self.max_in_flight >= 1,
            parents_precede(ops_view(ops@)),
        ensures
            r.wf(),
            r@.ops == ops_view(ops@),
            r@.limit == self.max_in_flight,
            r@.running == 0,
            forall|j: int| 0 <= j < r@.states.len() ==> r@.states[j] == OpState::Pending,
    {
        CopyScheduler::new(ops, self.max_in_flight)
    }

    /// The plan that recreates the directory `node` under `base_path` and
    /// copies each of its entries into it as a file, without descending.
    pub fn plan_flat(node: &FolderTreeNode, base_path: &str) -> (r: Vec<CopyOp>)
        ensures
            ops_view(r@) == flat_plan(*node, base_path@),
            parents_precede(ops_view(r@)),
    {
        let mut out: Vec<CopyOp> = Vec::new();
        let dir = join_path(base_path, node.name.as_str());
        out.push(
            CopyOp { kind: FsNodeKind::Dir, source: node.relative_path.clone(), dest: dir.clone(), parent: None },
        );
        let ghost fp = flat_plan(*node, base_path@);
        match &node.children {
            Some(children) => {
                let n = children.len();
                for i in 0..n
                    invariant
                        n == children@.len(),
                        kids(*node) == children@,
                        dir@ == join_spec(base_path@, node.name@),
                        fp == flat_plan(*node, base_path@),
                        out@.len() == i + 1,
                        forall|k: int| 0 <= k <= i ==> #[trigger] out@[k]@ == fp[k],
                {
                    let child: &FolderTreeNode = &children[i];
                    out.push(
                        CopyOp {
                            kind: FsNodeKind::File,
                            source: child.relative_path.clone(),
                            dest: join_path(dir.as_str(), child.name.as_str()),
                            parent: Some(0),
                        },
                    );
                }
            },
            None => {},
        }
        assert(ops_view(out@) =~= fp);
        out
    }

    /// The plan that recreates the directory `node`, with all its subtree,
    /// under `base_path`: the directory first, then its entries in pre-order.
    pub fn plan_nested(node: &FolderTreeNode, base_path: &str) -> (r: Vec<CopyOp>)
        ensures
            ops_view(r@) == subtree_plan(*node, base_path@, None, 0),
            parents_precede(ops_view(r@)),
            plan_entries(ops_view(r@)) == tree_entries(*node, base_path@),
    {
        let mut out: Vec<CopyOp> = Vec::new();
        let base = String::from_str(base_path);
        plan_subtree(node, &base, None, &mut out);
        proof {
            assert(ops_view(Seq::<CopyOp>::empty()) =~= Seq::empty());
            assert(ops_view(out@) =~= subtree_plan(*node, base_path@, None, 0));
            lemma_plan_parents_precede(*node, base_path@);
            lemma_plan_recreates_tree(*node, base_path@);
        }
        out
    }
}

} // verus!
