use vstd::prelude::*;
use vstd::set_lib::{lemma_int_range, lemma_len_subset, set_int_range};

verus! {

/// The pending marker of a freshly spawned scene root: the subtree under
/// `root` has not been scanned for mesh nodes yet.
#[derive(Clone, Copy, Debug, PartialEq, Eq, Structural)]
pub struct PickableGltf {
    pub root: usize,
}

/// One node of a scene hierarchy, addressed by its index in the arena.
#[derive(Debug)]
pub struct SceneNode {
    pub parent: Option<usize>,
    pub children: Vec<usize>,
    pub has_mesh: bool,
}

/// A scene hierarchy as an arena of nodes, with the pickable flag of each
/// node and the queue of roots still waiting for a scan.
#[derive(Debug)]
pub struct SceneGraph {
    pub nodes: Vec<SceneNode>,
    pub pickable: Vec<bool>,
    pub pending: Vec<PickableGltf>,
}

/// Every parent and child index names a node of the arena.
pub open spec fn nodes_wf(nodes: Seq<SceneNode>) -> bool {
    &&& forall|i: int, k: int|
        0 <= i < nodes.len() && 0 <= k < nodes[i].children@.len() ==> #[trigger] nodes[i].children@[k]
            < nodes.len()
    &&& forall|i: int|
        0 <= i < nodes.len() ==> (#[trigger] nodes[i].parent matches Some(p) ==> p < nodes.len())
}

/// `c` is listed among the children of node `p`.
pub open spec fn child_of(nodes: Seq<SceneNode>, p: int, c: int) -> bool {
    &&& 0 <= p < nodes.len()
    &&& 0 <= c < nodes.len()
    &&& nodes[p].children@.contains(c as usize)
}

/// Node `m` is made pickable by a pass over the queue `pending`: some queued
/// root's walk tags it.
pub open spec fn tagged_by_pass(nodes: Seq<SceneNode>, pending: Seq<PickableGltf>, m: int) -> bool {
    exists|k: int| 0 <= k < pending.len() && #[trigger] tagged_by_walk(nodes, pending[k].root as int, m)
}

/// The pickable flags after every root of `pending` has been walked.
pub open spec fn after_pass(
    nodes: Seq<SceneNode>,
    pickable: Seq<bool>,
    pending: Seq<PickableGltf>,
) -> Seq<bool> {
    Seq::new(pickable.len(), |m: int| pickable[m] || tagged_by_pass(nodes, pending, m))
}

/// The nodes whose flag is set in `after` and not in `before`, in increasing order.
pub open spec fn newly_flagged(before: Seq<bool>, after: Seq<bool>) -> Seq<usize>
    decreases after.len(),
{
    if after.len() == 0 {
        seq![]
    } else {
        let rest = newly_flagged(before, after.drop_last());
        let m = after.len() - 1;
        if after[m] && !before[m] {
            rest.push(m as usize)
        } else {
            rest
        }
    }
}

/// `path` is a non-empty run of nodes in which each one is a child of the
/// one before it.
pub open spec fn is_path(nodes: Seq<SceneNode>, path: Seq<int>) -> bool {
    &&& path.len() > 0
    &&& forall|i: int| 0 <= i < path.len() - 1 ==> #[trigger] child_of(nodes, path[i], path[i + 1])
}

/// `x` is `root` or one of its descendants.
pub open spec fn reaches(nodes: Seq<SceneNode>, root: int, x: int) -> bool {
    exists|path: Seq<int>| #[trigger] is_path(nodes, path) && path[0] == root && path.last() == x
}

/// Node `m` is made pickable by a walk from `root`: it carries a mesh and
/// its parent is `root` or a descendant of `root`.
pub open spec fn tagged_by_walk(nodes: Seq<SceneNode>, root: int, m: int) -> bool {
    &&& nodes[m].has_mesh
    &&& nodes[m].parent matches Some(p) && reaches(nodes, root, p as int)
}

/// The pickable flags after a walk from `root`.
pub open spec fn walked(nodes: Seq<SceneNode>, root: int, pickable: Seq<bool>) -> Seq<bool> {
    Seq::new(pickable.len(), |m: int| pickable[m] || tagged_by_walk(nodes, root, m))
}

proof fn lemma_reaches_child(nodes: Seq<SceneNode>, root: int, p: int, c: int)
    requires
        reaches(nodes, root, p),
        child_of(nodes, p, c),
    ensures
        reaches(nodes, root, c),
{
    let path = choose|path: Seq<int>| #[trigger] is_path(nodes, path) && path[0] == root && path.last() == p;
    let longer = path.push(c);
    assert forall|i: int| 0 <= i < longer.len() - 1 implies #[trigger] child_of(nodes, longer[i], longer[i + 1]) by {
        if i < path.len() - 1 {
            assert(child_of(nodes, path[i], path[i + 1]));
        }
    };
    assert(is_path(nodes, longer));
}

proof fn lemma_reaches_root(nodes: Seq<SceneNode>, root: int)
    ensures
        reaches(nodes, root, root),
{
    let path = seq![root];
    assert(is_path(nodes, path));
}

proof fn lemma_closed_holds_path(
    nodes: Seq<SceneNode>,
    root: int,
    seen: Seq<bool>,
    path: Seq<int>,
    i: int,
)
    requires
        seen.len() == nodes.len(),
        0 <= root < nodes.len(),
        seen[root],
        forall|p: int, c: int|
            0 <= p < nodes.len() && seen[p] && #[trigger] child_of(nodes, p, c) ==> seen[c],
        is_path(nodes, path),
        path[0] == root,
        0 <= i < path.len(),
    ensures
        0 <= path[i] < nodes.len() && seen[path[i]],
    decreases i,
{
    if i > 0 {
        lemma_closed_holds_path(nodes, root, seen, path, i - 1);
        let j = i - 1;
        assert(child_of(nodes, path[j], path[j + 1]));
    }
}

/// Marks every node that is `root` or a descendant of it, by a depth-first
/// walk with an explicit stack; each node is pushed at most once, so a
/// hierarchy with a cycle is walked to the end as well.
pub fn reachable_from(nodes: &Vec<SceneNode>, root: usize) -> (seen: Vec<bool>)
    requires
        nodes_wf(nodes@),
        root < nodes@.len(),
    ensures
        seen@.len() == nodes@.len(),
        forall|x: int| 0 <= x < nodes@.len() ==> seen@[x] == reaches(nodes@, root as int, x),
{
    let n = nodes.len();
    let mut seen: Vec<bool> = Vec::new();
    let mut i: usize = 0;
    while i < n
        invariant
            i <= n,
            n == nodes@.len(),
            seen@ == Seq::new(i as nat, |x: int| false),
        decreases n - i,
    {
        seen.push(false);
        i = i + 1;
        assert(seen@ =~= Seq::new(i as nat, |x: int| false));
    }
    seen.set(root, true);
    let mut stack: Vec<usize> = Vec::new();
    stack.push(root);
    let mut count: usize = 1;
    let ghost mut marked: Set<int> = set![root as int];
    let ghost mut expanded: Seq<bool> = Seq::new(n as nat, |x: int| false);
    proof {
        lemma_reaches_root(nodes@, root as int);
    }
    assert(stack@[0] == root);
    proof {
        lemma_int_range(0, n as int);
    }
    while stack.len() > 0
        invariant
            n == nodes@.len(),
            nodes_wf(nodes@),
            root < n,
            seen@.len() == n,
            expanded.len() == n,
            seen@[root as int],
            forall|x: int| 0 <= x < n && #[trigger] seen@[x] ==> reaches(nodes@, root as int, x),
            forall|k: int|
                0 <= k < stack@.len() ==> #[trigger] stack@[k] < n && seen@[stack@[k] as int],
            forall|p: int, c: int|
                0 <= p < n && expanded[p] && #[trigger] child_of(nodes@, p, c) ==> seen@[c],
            forall|p: int|
                0 <= p < n && #[trigger] seen@[p] && !expanded[p] ==> stack@.contains(p as usize),
            forall|x: int| #[trigger] marked.contains(x) <==> 0 <= x < n && seen@[x],
            marked.finite(),
            count == marked.len(),
            count <= n,
            set_int_range(0, n as int).finite(),
            set_int_range(0, n as int).len() == n,
        decreases n - count, stack@.len(),
    {
        let ghost before = stack@;
        let x = stack.pop().unwrap();
        proof {
            assert(before =~= stack@.push(x));
            assert forall|p: int|
                0 <= p < n && #[trigger] seen@[p] && !expanded[p] && p != x implies stack@.contains(
                p as usize,
            ) by {
                let k = choose|k: int| 0 <= k < before.len() && before[k] == p as usize;
                assert(k < stack@.len());
                assert(stack@[k] == p as usize);
            };
        }
        let children = &nodes[x].children;
        let ghost count0 = count;
        let ghost len0 = stack@.len();
        let mut j: usize = 0;
        while j < children.len()
            invariant
                n == nodes@.len(),
                nodes_wf(nodes@),
                x < n,
                *children == nodes@[x as int].children,
                j <= children@.len(),
                root < n,
                seen@.len() == n,
                expanded.len() == n,
                seen@[root as int],
                seen@[x as int],
                reaches(nodes@, root as int, x as int),
                forall|y: int| 0 <= y < n && #[trigger] seen@[y] ==> reaches(nodes@, root as int, y),
                forall|k: int|
                    0 <= k < stack@.len() ==> #[trigger] stack@[k] < n && seen@[stack@[k] as int],
                forall|p: int, c: int|
                    0 <= p < n && expanded[p] && #[trigger] child_of(nodes@, p, c) ==> seen@[c],
                forall|p: int|
                    0 <= p < n && #[trigger] seen@[p] && !expanded[p] && p != x
                        ==> stack@.contains(p as usize),
                forall|k: int| 0 <= k < j ==> seen@[#[trigger] children@[k] as int],
                forall|y: int| #[trigger] marked.contains(y) <==> 0 <= y < n && seen@[y],
                marked.finite(),
                count == marked.len(),
                count0 <= count <= n,
                count == count0 ==> stack@.len() == len0,
                set_int_range(0, n as int).finite(),
                set_int_range(0, n as int).len() == n,
            decreases children@.len() - j,
        {
            let c = children[j];
            assert(nodes@[x as int].children@[j as int] < n);
            if !seen[c] {
                let ghost st = stack@;
                proof {
                    assert(child_of(nodes@, x as int, c as int));
                    lemma_reaches_child(nodes@, root as int, x as int, c as int);
                    assert(!marked.contains(c as int));
                    marked = marked.insert(c as int);
                    assert(marked.subset_of(set_int_range(0, n as int)));
                    lemma_len_subset(marked, set_int_range(0, n as int));
                }
                seen.set(c, true);
                stack.push(c);
                count = count + 1;
                proof {
                    assert(stack@[st.len() as int] == c);
                    assert forall|p: int|
                        0 <= p < n && #[trigger] seen@[p] && !expanded[p] && p != x
                            implies stack@.contains(p as usize) by {
                        if p != c {
                            let k = choose|k: int| 0 <= k < st.len() && st[k] == p as usize;
                            assert(stack@[k] == p as usize);
                        }
                    };
                }
            }
            j = j + 1;
        }
        proof {
            expanded = expanded.update(x as int, true);
            assert forall|p: int, c: int|
                0 <= p < n && expanded[p] && #[trigger] child_of(nodes@, p, c) implies seen@[c] by {
                if p == x {
                    let k = choose|k: int|
                        0 <= k < children@.len() && children@[k] == c as usize;
                    assert(seen@[children@[k] as int]);
                }
            };
        }
    }
    proof {
        assert forall|x: int| 0 <= x < n implies seen@[x] == reaches(nodes@, root as int, x) by {
            if reaches(nodes@, root as int, x) {
                let path = choose|path: Seq<int>|
                    #[trigger] is_path(nodes@, path) && path[0] == root as int && path.last() == x;
                lemma_closed_holds_path(nodes@, root as int, seen@, path, path.len() - 1);
            }
        };
    }
    seen
}

/// Marks as pickable every mesh node whose parent is `root` or one of its
/// descendants; other flags are left as they are.
pub fn set_pickable_recursive(nodes: &Vec<SceneNode>, root: usize, pickable: &mut Vec<bool>)
    requires
        nodes_wf(nodes@),
        root < nodes@.len(),
        old(pickable)@.len() == nodes@.len(),
    ensures
        final(pickable)@ == walked(nodes@, root as int, old(pickable)@),
{
    let seen = reachable_from(nodes, root);
    let n = nodes.len();
    let ghost before = pickable@;
    let mut m: usize = 0;
    while m < n
        invariant
            n == nodes@.len(),
            nodes_wf(nodes@),
            m <= n,
            seen@.len() == n,
            forall|x: int| 0 <= x < n ==> seen@[x] == reaches(nodes@, root as int, x),
            before.len() == n,
            pickable@.len() == n,
            forall|y: int|
                0 <= y < m ==> #[trigger] pickable@[y] == (before[y] || tagged_by_walk(
                    nodes@,
                    root as int,
                    y,
                )),
            forall|y: int| m <= y < n ==> pickable@[y] == before[y],
        decreases n - m,
    {
        let node = &nodes[m];
        if node.has_mesh {
            if let Some(p) = node.parent {
                assert(nodes@[m as int].parent matches Some(q) ==> q < n);
                if seen[p] {
                    pickable.set(m, true);
                }
                assert(seen@[p as int] == reaches(nodes@, root as int, p as int));
            }
        }
        assert(pickable@[m as int] == (before[m as int] || tagged_by_walk(nodes@, root as int, m as int)));
        m = m + 1;
    }
    assert(pickable@ =~= walked(nodes@, root as int, before));
}

/// The indices whose flag is set in `after` and not in `before`.
fn newly_set(before: &Vec<bool>, after: &Vec<bool>) -> (r: Vec<usize>)
    requires
        before@.len() == after@.len(),
    ensures
        r@ == newly_flagged(before@, after@),
{
    let mut r: Vec<usize> = Vec::new();
    let mut m: usize = 0;
    while m < after.len()
        invariant
            before@.len() == after@.len(),
            m <= after@.len(),
            r@ == newly_flagged(before@, after@.subrange(0, m as int)),
        decreases after@.len() - m,
    {
        let ghost prefix = after@.subrange(0, m as int);
        if after[m] && !before[m] {
            r.push(m);
        }
        m = m + 1;
        assert(after@.subrange(0, m as int).drop_last() =~= prefix);
    }
    assert(after@.subrange(0, m as int) =~= after@);
    r
}

proof fn lemma_pass_step(
    nodes: Seq<SceneNode>,
    pickable: Seq<bool>,
    pending: Seq<PickableGltf>,
    k: int,
)
    requires
        0 <= k < pending.len(),
    ensures
        walked(nodes, pending[k].root as int, after_pass(nodes, pickable, pending.subrange(0, k)))
            == after_pass(nodes, pickable, pending.subrange(0, k + 1)),
{
    let lo = pending.subrange(0, k);
    let hi = pending.subrange(0, k + 1);
    let lhs = walked(nodes, pending[k].root as int, after_pass(nodes, pickable, lo));
    let rhs = after_pass(nodes, pickable, hi);
    assert forall|m: int| 0 <= m < pickable.len() implies lhs[m] == rhs[m] by {
        if tagged_by_pass(nodes, lo, m) {
            let j = choose|j: int| 0 <= j < lo.len() && #[trigger] tagged_by_walk(nodes, lo[j].root as int, m);
            assert(hi[j] == lo[j]);
        }
        if tagged_by_pass(nodes, hi, m) {
            let j = choose|j: int| 0 <= j < hi.len() && #[trigger] tagged_by_walk(nodes, hi[j].root as int, m);
            if j < k {
                assert(hi[j] == lo[j]);
            }
        }
        if tagged_by_walk(nodes, pending[k].root as int, m) {
            assert(hi[k] == pending[k]);
        }
    };
    assert(lhs =~= rhs);
}

proof fn lemma_nothing_newly_flagged(before: Seq<bool>, after: Seq<bool>)
    requires
        after.len() <= before.len(),
        forall|m: int| 0 <= m < after.len() && #[trigger] after[m] ==> before[m],
    ensures
        newly_flagged(before, after).len() == 0,
    decreases after.len(),
{
    if after.len() > 0 {
        lemma_nothing_newly_flagged(before, after.drop_last());
    }
}

/// Scanning a second time tags nothing: once every queued root has been
/// walked and the queue emptied, another pass leaves every flag as it is and
/// makes no node newly pickable; and walking one root a second time changes
/// nothing that the first walk left.
pub proof fn lemma_second_scan_tags_nothing(
    nodes: Seq<SceneNode>,
    pickable: Seq<bool>,
    pending: Seq<PickableGltf>,
    root: int,
)
    ensures
        after_pass(nodes, after_pass(nodes, pickable, pending), Seq::empty()) == after_pass(
            nodes,
            pickable,
            pending,
        ),
        newly_flagged(
            after_pass(nodes, pickable, pending),
            after_pass(nodes, after_pass(nodes, pickable, pending), Seq::empty()),
        ).len() == 0,
        walked(nodes, root, walked(nodes, root, pickable)) == walked(nodes, root, pickable),
        newly_flagged(
            walked(nodes, root, pickable),
            walked(nodes, root, walked(nodes, root, pickable)),
        ).len() == 0,
{
    let once = after_pass(nodes, pickable, pending);
    let again = after_pass(nodes, once, Seq::empty());
    assert(again =~= once);
    lemma_nothing_newly_flagged(once, again);
    let w1 = walked(nodes, root, pickable);
    let w2 = walked(nodes, root, w1);
    assert(w2 =~= w1);
    lemma_nothing_newly_flagged(w1, w2);
}

impl SceneGraph {
    /// Indices in range, one flag per node, every queued root a node.
    pub open spec fn wf(&self) -> bool {
        &&& nodes_wf(self.nodes@)
        &&& self.pickable@.len() == self.nodes@.len()
        &&& forall|k: int| 0 <= k < self.pending@.len() ==> #[trigger] self.pending@[k].root < self.nodes@.len()
    }

    /// Whether the graph is well formed: every index names a node and there
    /// is one flag per node.
    pub fn is_well_formed(&self) -> (r: bool)
        ensures
            r == self.wf(),
    {
        let n = self.nodes.len();
        if self.pickable.len() != n {
            return false;
        }
        let mut i: usize = 0;
        while i < n
            invariant
                n == self.nodes@.len(),
                i <= n,
                forall|a: int, k: int|
                    0 <= a < i && 0 <= k < self.nodes@[a].children@.len()
                        ==> #[trigger] self.nodes@[a].children@[k] < n,
                forall|a: int|
                    0 <= a < i ==> (#[trigger] self.nodes@[a].parent matches Some(p) ==> p < n),
            decreases n - i,
        {
            let node = &self.nodes[i];
            if let Some(p) = node.parent {
                if p >= n {
                    return false;
                }
            }
            let mut k: usize = 0;
            while k < node.children.len()
                invariant
                    n == self.nodes@.len(),
                    i < n,
                    *node == self.nodes@[i as int],
                    k <= node.children@.len(),
                    forall|b: int| 0 <= b < k ==> #[trigger] node.children@[b] < n,
                decreases node.children@.len() - k,
            {
                if node.children[k] >= n {
                    return false;
                }
                k = k + 1;
            }
            i = i + 1;
        }
        let mut k: usize = 0;
        while k < self.pending.len()
            invariant
                n == self.nodes@.len(),
                k <= self.pending@.len(),
                forall|b: int| 0 <= b < k ==> #[trigger] self.pending@[b].root < n,
            decreases self.pending@.len() - k,
        {
            if self.pending[k].root >= n {
                return false;
            }
            k = k + 1;
        }
        true
    }
}

/// Walks every queued root, marking its mesh nodes pickable, and then
/// empties the queue, so that no root is scanned twice. Returns the
/// nodes that became pickable, in increasing order.
pub fn make_gltf_scene_pickable(graph: &mut SceneGraph) -> (r: Vec<usize>)
    requires
        old(graph).wf(),
    ensures
        final(graph).wf(),
        final(graph).nodes == old(graph).nodes,
        final(graph).pending@ == Seq::<PickableGltf>::empty(),
        final(graph).pickable@ == after_pass(
            old(graph).nodes@,
            old(graph).pickable@,
            old(graph).pending@,
        ),
        r@ == newly_flagged(old(graph).pickable@, final(graph).pickable@),
{
    let before = graph.pickable.clone();
    assert(before@ =~= graph.pickable@);
    let mut k: usize = 0;
    while k < graph.pending.len()
        invariant
            graph.wf(),
            graph.nodes == old(graph).nodes,
            graph.pending == old(graph).pending,
            k <= graph.pending@.len(),
            before@ == old(graph).pickable@,
            graph.pickable@ == after_pass(
                graph.nodes@,
                before@,
                graph.pending@.subrange(0, k as int),
            ),
        decreases graph.pending@.len() - k,
    {
        let root = graph.pending[k].root;
        set_pickable_recursive(&graph.nodes, root, &mut graph.pickable);
        proof {
            lemma_pass_step(graph.nodes@, before@, graph.pending@, k as int);
        }
        k = k + 1;
    }
    assert(graph.pending@.subrange(0, k as int) =~= graph.pending@);
    graph.pending = Vec::new();
    newly_set(&before, &graph.pickable)
}

} // verus!
