use vstd::prelude::*;

verus! {

/// Index of a node; stable for the lifetime of the tree.
pub type NodeId = usize;

/// What a node holds, as the contracts see it.
pub struct NodeModel<T> {
    pub data: T,
    pub parent: Option<NodeId>,
    pub children: Seq<NodeId>,
}

#[derive(Debug)]
pub struct Node<T> {
    data: T,
    parent: Option<NodeId>,
    children: Vec<NodeId>,
}

impl<T> View for Node<T> {
    type V = NodeModel<T>;

    closed spec fn view(&self) -> NodeModel<T> {
        NodeModel { data: self.data, parent: self.parent, children: self.children@ }
    }
}

impl<T> Node<T> {
    fn new(data: T) -> (r: Node<T>)
        ensures
            r@.data == data,
            r@.parent is None,
            r@.children.len() == 0,
    {
        Node { data, parent: None, children: Vec::new() }
    }

    pub fn data(&self) -> (r: &T)
        ensures
            *r == self@.data,
    {
        &self.data
    }

    pub fn data_mut(&mut self) -> (r: &mut T)
        ensures
            *r == old(self)@.data,
            final(self)@ == (NodeModel { data: *final(r), ..old(self)@ }),
    {
        &mut self.data
    }

    fn link_parent(&mut self, p: NodeId)
        ensures
            final(self)@ == (NodeModel { parent: Some(p), ..old(self)@ }),
    {
        self.parent = Some(p);
    }

    fn push_child(&mut self, c: NodeId)
        ensures
            final(self)@ == (NodeModel { children: old(self)@.children.push(c), ..old(self)@ }),
    {
        self.children.push(c);
    }

    pub fn parent(&self) -> (r: Option<NodeId>)
        ensures
            r == self@.parent,
    {
        self.parent
    }

    pub fn children(&self) -> (r: &Vec<NodeId>)
        ensures
            r@ == self@.children,
    {
        &self.children
    }
}

/// An ordered multi-way tree whose nodes are appended and never removed.
/// Node 0 is the root.
#[derive(Debug)]
pub struct Tree<T> {
    nodes: Vec<Node<T>>,
}

impl<T> View for Tree<T> {
    type V = Seq<NodeModel<T>>;

    closed spec fn view(&self) -> Seq<NodeModel<T>> {
        self.nodes@.map_values(|n: Node<T>| n@)
    }
}

/// Whether `c` is linked under `p`: `c` names `p` as its parent.
pub open spec fn is_parent<T>(t: Seq<NodeModel<T>>, p: int, c: int) -> bool {
    0 <= c < t.len() && t[c].parent == Some(p as NodeId)
}

/// The structural invariant of a tree: a parentless root, parents that
/// exist, and children lists that hold exactly the nodes naming that parent,
/// each once, in the order they were linked.
pub open spec fn tree_wf<T>(t: Seq<NodeModel<T>>) -> bool {
    &&& t.len() >= 1
    &&& t[0].parent is None
    &&& forall|i: int|
        0 <= i < t.len() ==> (#[trigger] t[i].parent matches Some(p) ==> p < t.len())
    &&& forall|i: int, j: int|
        0 <= i < t.len() && 0 <= j < t[i].children.len() ==> is_parent(
            t,
            i,
            #[trigger] t[i].children[j] as int,
        )
    &&& forall|c: int|
        0 <= c < t.len() ==> (#[trigger] t[c].parent matches Some(p) ==> t[p as int].children.contains(
            c as NodeId,
        ))
    &&& forall|i: int| 0 <= i < t.len() ==> (#[trigger] t[i].children).no_duplicates()
}

/// The child that follows `id` among its parent's children, if any.
pub open spec fn sibling_after<T>(t: Seq<NodeModel<T>>, id: int) -> Option<NodeId> {
    match t[id].parent {
        None => None,
        Some(p) => {
            let kids = t[p as int].children;
            let k = kids.index_of(id as NodeId);
            if k + 1 < kids.len() {
                Some(kids[k + 1])
            } else {
                None
            }
        },
    }
}

/// The paths below `path` in depth-first pre-order, children in the order
/// they were linked; `path` itself comes first. `fuel` bounds the depth
/// that is explored below `path`.
pub open spec fn paths_below<T>(t: Seq<NodeModel<T>>, path: Seq<NodeId>, fuel: nat) -> Seq<
    Seq<NodeId>,
>
    decreases fuel, 0nat,
{
    if fuel == 0 || path.len() == 0 || path.last() >= t.len() {
        seq![path]
    } else {
        seq![path] + paths_under(t, path, t[path.last() as int].children, (fuel - 1) as nat)
    }
}

/// The paths below `path` through each of `kids` in turn.
pub open spec fn paths_under<T>(
    t: Seq<NodeModel<T>>,
    path: Seq<NodeId>,
    kids: Seq<NodeId>,
    fuel: nat,
) -> Seq<Seq<NodeId>>
    decreases fuel, kids.len() + 1,
{
    if kids.len() == 0 {
        seq![]
    } else {
        paths_below(t, path.push(kids[0]), fuel) + paths_under(t, path, kids.drop_first(), fuel)
    }
}

/// `q` continues `p` downwards: it starts with `p`, names only nodes of the
/// tree, and each step after `p`'s last node goes from a parent to a child.
pub open spec fn path_extends<T>(t: Seq<NodeModel<T>>, p: Seq<NodeId>, q: Seq<NodeId>) -> bool {
    &&& q.len() >= p.len()
    &&& q.subrange(0, p.len() as int) == p
    &&& forall|j: int| 0 <= j < q.len() ==> #[trigger] q[j] < t.len()
    &&& forall|j: int| p.len() - 1 <= j < q.len() - 1 ==> is_parent(t, #[trigger] q[j] as int, q[j + 1] as int)
}

proof fn lemma_extends_step<T>(t: Seq<NodeModel<T>>, p: Seq<NodeId>, c: NodeId, q: Seq<NodeId>)
    requires
        p.len() >= 1,
        is_parent(t, p.last() as int, c as int),
        path_extends(t, p.push(c), q),
    ensures
        path_extends(t, p, q),
{
    assert(q.subrange(0, p.len() as int) =~= p.push(c).subrange(0, p.len() as int));
    assert(p.push(c).subrange(0, p.len() as int) =~= p);
    assert forall|j: int| p.len() - 1 <= j < q.len() - 1 implies is_parent(t, #[trigger] q[j] as int, q[j + 1] as int) by {
        if j == p.len() - 1 {
            assert(q[j] == q.subrange(0, (p.len() + 1) as int)[j]);
            assert(q[j + 1] == q.subrange(0, (p.len() + 1) as int)[j + 1]);
        }
    }
}

proof fn lemma_paths_below_extend<T>(t: Seq<NodeModel<T>>, p: Seq<NodeId>, fuel: nat)
    requires
        tree_wf(t),
        p.len() >= 1,
        forall|j: int| 0 <= j < p.len() ==> #[trigger] p[j] < t.len(),
    ensures
        forall|i: int| 0 <= i < paths_below(t, p, fuel).len() ==> path_extends(t, p, #[trigger] paths_below(t, p, fuel)[i]),
    decreases fuel, 0nat,
{
    let r = paths_below(t, p, fuel);
    assert(p.subrange(0, p.len() as int) =~= p);
    assert(path_extends(t, p, p));
    if fuel == 0 || p.len() == 0 || p.last() >= t.len() {
    } else {
        let kids = t[p.last() as int].children;
        assert forall|k: int| 0 <= k < kids.len() implies is_parent(t, p.last() as int, #[trigger] kids[k] as int) by {}
        lemma_paths_under_extend(t, p, kids, (fuel - 1) as nat);
        assert forall|i: int| 0 <= i < r.len() implies path_extends(t, p, #[trigger] r[i]) by {
            if i > 0 {
                assert(r[i] == paths_under(t, p, kids, (fuel - 1) as nat)[i - 1]);
            }
        }
    }
}

proof fn lemma_paths_under_extend<T>(t: Seq<NodeModel<T>>, p: Seq<NodeId>, kids: Seq<NodeId>, fuel: nat)
    requires
        tree_wf(t),
        p.len() >= 1,
        forall|j: int| 0 <= j < p.len() ==> #[trigger] p[j] < t.len(),
        forall|k: int| 0 <= k < kids.len() ==> is_parent(t, p.last() as int, #[trigger] kids[k] as int),
    ensures
        forall|i: int| 0 <= i < paths_under(t, p, kids, fuel).len() ==> path_extends(t, p, #[trigger] paths_under(t, p, kids, fuel)[i]),
    decreases fuel, kids.len() + 1,
{
    if kids.len() > 0 {
        let c = kids[0];
        assert(is_parent(t, p.last() as int, c as int));
        let pc = p.push(c);
        assert forall|j: int| 0 <= j < pc.len() implies #[trigger] pc[j] < t.len() by {
            if j < p.len() {
                assert(pc[j] == p[j]);
            }
        }
        lemma_paths_below_extend(t, pc, fuel);
        assert forall|k: int| 0 <= k < kids.drop_first().len() implies is_parent(t, p.last() as int, #[trigger] kids.drop_first()[k] as int) by {
            assert(kids.drop_first()[k] == kids[k + 1]);
        }
        lemma_paths_under_extend(t, p, kids.drop_first(), fuel);
        let a = paths_below(t, pc, fuel);
        let b = paths_under(t, p, kids.drop_first(), fuel);
        assert forall|i: int| 0 <= i < (a + b).len() implies path_extends(t, p, #[trigger] (a + b)[i]) by {
            if i < a.len() {
                assert(path_extends(t, pc, a[i]));
                lemma_extends_step(t, p, c, a[i]);
            } else {
                assert((a + b)[i] == b[i - a.len()]);
            }
        }
    }
}

/// Every path that the pre-order walk yields starts at the root, names only
/// nodes of the tree, and steps from each node to one of its children.
pub proof fn lemma_preorder_valid<T>(t: Seq<NodeModel<T>>)
    requires
        tree_wf(t),
    ensures
        forall|i: int| 0 <= i < preorder(t).len() ==> path_extends(t, seq![0usize], #[trigger] preorder(t)[i]),
        forall|i: int| 0 <= i < preorder(t).len() ==> (#[trigger] preorder(t)[i]).len() >= 1 && preorder(t)[i][0] == 0,
        forall|i: int, j: int| 0 <= i < preorder(t).len() && 0 <= j < preorder(t)[i].len() ==> #[trigger] preorder(t)[i][j] < t.len(),
{
    let r = seq![0usize];
    lemma_paths_below_extend(t, r, depth_budget(t.len(), r));
    assert forall|i: int| 0 <= i < preorder(t).len() implies (#[trigger] preorder(t)[i]).len() >= 1 && preorder(t)[i][0] == 0 by {
        let q = preorder(t)[i];
        assert(path_extends(t, r, q));
        assert(q[0] == q.subrange(0, 1)[0]);
    }
    assert forall|i: int, j: int| 0 <= i < preorder(t).len() && 0 <= j < preorder(t)[i].len() implies #[trigger] preorder(t)[i][j] < t.len() by {
        assert(path_extends(t, r, preorder(t)[i]));
    }
}

/// The node `k` steps above `n`, following parent links.
pub open spec fn ancestor_at<T>(t: Seq<NodeModel<T>>, n: int, k: nat) -> Option<NodeId>
    decreases k,
{
    if k == 0 {
        if 0 <= n < t.len() {
            Some(n as NodeId)
        } else {
            None
        }
    } else {
        match ancestor_at(t, n, (k - 1) as nat) {
            Some(m) => if m < t.len() {
                t[m as int].parent
            } else {
                None
            },
            None => None,
        }
    }
}

/// `n` lies in the subtree of `x`, below `x` itself.
pub open spec fn is_below<T>(t: Seq<NodeModel<T>>, x: NodeId, n: NodeId) -> bool {
    exists|k: nat| k >= 1 && #[trigger] ancestor_at(t, n as int, k) == Some(x)
}

/// Along a path from the root, the ancestors of its last node are the
/// earlier nodes of the path, and there are no others.
pub proof fn lemma_path_ancestors<T>(t: Seq<NodeModel<T>>, q: Seq<NodeId>)
    requires
        tree_wf(t),
        path_extends(t, seq![0usize], q),
    ensures
        forall|k: nat| k < q.len() ==> #[trigger] ancestor_at(t, q.last() as int, k) == Some(q[q.len() - 1 - k]),
        forall|k: nat| k >= q.len() ==> #[trigger] ancestor_at(t, q.last() as int, k) is None,
        forall|x: NodeId| is_below(t, x, q.last()) <==> exists|j: int| 0 <= j < q.len() - 1 && q[j] == x,
{
    assert(q[0] == q.subrange(0, 1)[0]);
    assert forall|k: nat| k < q.len() implies #[trigger] ancestor_at(t, q.last() as int, k) == Some(q[q.len() - 1 - k]) by {
        lemma_ancestor_along(t, q, k);
    }
    assert forall|k: nat| k >= q.len() implies #[trigger] ancestor_at(t, q.last() as int, k) is None by {
        lemma_ancestor_past_root(t, q, k);
    }
    assert forall|x: NodeId| is_below(t, x, q.last()) <==> exists|j: int| 0 <= j < q.len() - 1 && q[j] == x by {
        if is_below(t, x, q.last()) {
            let k = choose|k: nat| k >= 1 && #[trigger] ancestor_at(t, q.last() as int, k) == Some(x);
            if k >= q.len() {
                lemma_ancestor_past_root(t, q, k);
            } else {
                lemma_ancestor_along(t, q, k);
                assert(q[q.len() - 1 - k] == x);
            }
        }
        if exists|j: int| 0 <= j < q.len() - 1 && q[j] == x {
            let j = choose|j: int| 0 <= j < q.len() - 1 && q[j] == x;
            let k = (q.len() - 1 - j) as nat;
            lemma_ancestor_along(t, q, k);
            assert(ancestor_at(t, q.last() as int, k) == Some(x));
        }
    }
}

proof fn lemma_ancestor_along<T>(t: Seq<NodeModel<T>>, q: Seq<NodeId>, k: nat)
    requires
        tree_wf(t),
        path_extends(t, seq![0usize], q),
        k < q.len(),
    ensures
        ancestor_at(t, q.last() as int, k) == Some(q[q.len() - 1 - k]),
    decreases k,
{
    if k > 0 {
        lemma_ancestor_along(t, q, (k - 1) as nat);
        let j = q.len() - 1 - k;
        assert(is_parent(t, q[j] as int, q[j + 1] as int));
    }
}

proof fn lemma_ancestor_past_root<T>(t: Seq<NodeModel<T>>, q: Seq<NodeId>, k: nat)
    requires
        tree_wf(t),
        path_extends(t, seq![0usize], q),
        k >= q.len(),
    ensures
        ancestor_at(t, q.last() as int, k) is None,
    decreases k,
{
    assert(q[0] == q.subrange(0, 1)[0]);
    if k == q.len() {
        lemma_ancestor_along(t, q, (k - 1) as nat);
    } else {
        lemma_ancestor_past_root(t, q, (k - 1) as nat);
    }
}

/// Two paths from the root that end at the same node are the same path.
pub proof fn lemma_root_path_unique<T>(t: Seq<NodeModel<T>>, q1: Seq<NodeId>, q2: Seq<NodeId>)
    requires
        tree_wf(t),
        path_extends(t, seq![0usize], q1),
        path_extends(t, seq![0usize], q2),
        q1.last() == q2.last(),
    ensures
        q1 == q2,
{
    lemma_path_ancestors(t, q1);
    lemma_path_ancestors(t, q2);
    if q1.len() < q2.len() {
        let k = q1.len() as nat;
        assert(ancestor_at(t, q1.last() as int, k) is None);
        assert(ancestor_at(t, q2.last() as int, k) == Some(q2[q2.len() - 1 - k]));
    } else if q2.len() < q1.len() {
        let k = q2.len() as nat;
        assert(ancestor_at(t, q2.last() as int, k) is None);
        assert(ancestor_at(t, q1.last() as int, k) == Some(q1[q1.len() - 1 - k]));
    }
    assert forall|j: int| 0 <= j < q1.len() implies q1[j] == q2[j] by {
        let k = (q1.len() - 1 - j) as nat;
        assert(ancestor_at(t, q1.last() as int, k) == Some(q1[q1.len() - 1 - k]));
        assert(ancestor_at(t, q2.last() as int, k) == Some(q2[q2.len() - 1 - k]));
    }
    assert(q1 =~= q2);
}

/// A path from the root names no node twice, so it is no longer than the
/// tree has nodes.
pub proof fn lemma_root_path_simple<T>(t: Seq<NodeModel<T>>, q: Seq<NodeId>)
    requires
        tree_wf(t),
        path_extends(t, seq![0usize], q),
    ensures
        q.no_duplicates(),
        q.len() <= t.len(),
{
    assert(q[0] == q.subrange(0, 1)[0]);
    assert forall|i: int, j: int| 0 <= i < q.len() && 0 <= j < q.len() && i != j implies q[i] != q[j] by {
        if q[i] == q[j] {
            let a = if i < j { i } else { j };
            let b = if i < j { j } else { i };
            let q2 = q.subrange(0, a + 1) + q.subrange(b + 1, q.len() as int);
            assert(q2.len() == q.len() - (b - a));
            assert forall|m: int| 0 <= m < q2.len() implies #[trigger] q2[m] == if m <= a { q[m] } else { q[m + (b - a)] } by {}
            assert(q2.subrange(0, 1) =~= seq![0usize]);
            assert forall|m: int| 0 <= m < q2.len() implies #[trigger] q2[m] < t.len() by {}
            assert forall|m: int| 0 <= m < q2.len() - 1 implies is_parent(t, #[trigger] q2[m] as int, q2[m + 1] as int) by {
                if m < a {
                    assert(is_parent(t, q[m] as int, q[m + 1] as int));
                } else {
                    assert(is_parent(t, q[m + (b - a)] as int, q[m + 1 + (b - a)] as int));
                }
            }
            assert(path_extends(t, seq![0usize], q2));
            assert(q2.last() == q.last());
            lemma_root_path_unique(t, q, q2);
        }
    }
    let s = q.map_values(|x: NodeId| x as int);
    assert(s.no_duplicates());
    s.unique_seq_to_set();
    vstd::set_lib::lemma_int_range(0, t.len() as int);
    assert(s.to_set().subset_of(vstd::set_lib::set_int_range(0, t.len() as int))) by {
        assert forall|v: int| s.to_set().contains(v) implies vstd::set_lib::set_int_range(0, t.len() as int).contains(v) by {
            let k = choose|k: int| 0 <= k < s.len() && s[k] == v;
            assert(q[k] < t.len());
        }
    }
    vstd::set_lib::lemma_len_subset(s.to_set(), vstd::set_lib::set_int_range(0, t.len() as int));
}

proof fn lemma_paths_below_distinct<T>(t: Seq<NodeModel<T>>, p: Seq<NodeId>, fuel: nat)
    requires
        tree_wf(t),
        p.len() >= 1,
        forall|j: int| 0 <= j < p.len() ==> #[trigger] p[j] < t.len(),
    ensures
        paths_below(t, p, fuel).no_duplicates(),
    decreases fuel, 0nat,
{
    if fuel == 0 || p.len() == 0 || p.last() >= t.len() {
    } else {
        let kids = t[p.last() as int].children;
        let f = (fuel - 1) as nat;
        assert forall|k: int| 0 <= k < kids.len() implies is_parent(t, p.last() as int, #[trigger] kids[k] as int) by {}
        lemma_paths_under_distinct(t, p, kids, f);
        let u = paths_under(t, p, kids, f);
        let r = seq![p] + u;
        assert forall|i: int, j: int| 0 <= i < r.len() && 0 <= j < r.len() && i != j implies r[i] != r[j] by {
            if i == 0 {
                assert(r[j] == u[j - 1]);
            } else if j == 0 {
                assert(r[i] == u[i - 1]);
            } else {
                assert(r[i] == u[i - 1] && r[j] == u[j - 1]);
            }
        }
    }
}

proof fn lemma_paths_under_distinct<T>(t: Seq<NodeModel<T>>, p: Seq<NodeId>, kids: Seq<NodeId>, fuel: nat)
    requires
        tree_wf(t),
        p.len() >= 1,
        forall|j: int| 0 <= j < p.len() ==> #[trigger] p[j] < t.len(),
        forall|k: int| 0 <= k < kids.len() ==> is_parent(t, p.last() as int, #[trigger] kids[k] as int),
        kids.no_duplicates(),
    ensures
        paths_under(t, p, kids, fuel).no_duplicates(),
        forall|i: int| 0 <= i < paths_under(t, p, kids, fuel).len() ==> {
            let q = #[trigger] paths_under(t, p, kids, fuel)[i];
            q.len() > p.len() && kids.contains(q[p.len() as int])
        },
    decreases fuel, kids.len() + 1,
{
    if kids.len() > 0 {
        let c = kids[0];
        let pc = p.push(c);
        assert forall|j: int| 0 <= j < pc.len() implies #[trigger] pc[j] < t.len() by {
            if j < p.len() {
                assert(pc[j] == p[j]);
            } else {
                assert(is_parent(t, p.last() as int, kids[0] as int));
            }
        }
        let rest = kids.drop_first();
        assert forall|k: int| 0 <= k < rest.len() implies is_parent(t, p.last() as int, #[trigger] rest[k] as int) by {
            assert(rest[k] == kids[k + 1]);
        }
        assert(rest.no_duplicates());
        lemma_paths_below_distinct(t, pc, fuel);
        lemma_paths_below_extend(t, pc, fuel);
        lemma_paths_under_distinct(t, p, rest, fuel);
        let a = paths_below(t, pc, fuel);
        let b = paths_under(t, p, rest, fuel);
        assert forall|i: int| 0 <= i < a.len() implies (#[trigger] a[i]).len() > p.len() && a[i][p.len() as int] == c by {
            assert(path_extends(t, pc, a[i]));
            assert(a[i][p.len() as int] == a[i].subrange(0, pc.len() as int)[p.len() as int]);
        }
        assert forall|i: int, j: int| 0 <= i < (a + b).len() && 0 <= j < (a + b).len() && i != j implies (a + b)[i] != (a + b)[j] by {
            if i < a.len() && j >= a.len() {
                assert((a + b)[j] == b[j - a.len()]);
                assert(kids.contains(b[j - a.len()][p.len() as int]));
                let k = choose|k: int| 0 <= k < rest.len() && rest[k] == b[j - a.len()][p.len() as int];
                assert(rest[k] == kids[k + 1]);
            } else if j < a.len() && i >= a.len() {
                assert((a + b)[i] == b[i - a.len()]);
                let k = choose|k: int| 0 <= k < rest.len() && rest[k] == b[i - a.len()][p.len() as int];
                assert(rest[k] == kids[k + 1]);
            } else if i >= a.len() {
                assert((a + b)[i] == b[i - a.len()] && (a + b)[j] == b[j - a.len()]);
            }
        }
        assert forall|i: int| 0 <= i < (a + b).len() implies {
            let q = #[trigger] (a + b)[i];
            q.len() > p.len() && kids.contains(q[p.len() as int])
        } by {
            if i < a.len() {
                assert(kids[0] == c);
            } else {
                assert((a + b)[i] == b[i - a.len()]);
                let q = b[i - a.len()];
                let k = choose|k: int| 0 <= k < rest.len() && rest[k] == q[p.len() as int];
                assert(kids[k + 1] == rest[k]);
            }
        }
    }
}

proof fn lemma_paths_below_contains<T>(t: Seq<NodeModel<T>>, p: Seq<NodeId>, fuel: nat, q: Seq<NodeId>)
    requires
        tree_wf(t),
        p.len() >= 1,
        path_extends(t, p, q),
        q.len() - p.len() <= fuel,
    ensures
        paths_below(t, p, fuel).contains(q),
    decreases fuel, 0nat,
{
    if q.len() == p.len() {
        assert(q =~= q.subrange(0, p.len() as int));
        assert(paths_below(t, p, fuel)[0] == q);
    } else {
        let n = p.len() as int;
        let c = q[n];
        assert(q[n - 1] == q.subrange(0, n)[n - 1]);
        assert(is_parent(t, q[n - 1] as int, c as int));
        let kids = t[p.last() as int].children;
        assert(kids.contains(c));
        let pc = p.push(c);
        assert(q.subrange(0, n + 1) =~= pc);
        assert(path_extends(t, pc, q));
        lemma_paths_under_contains(t, p, kids, (fuel - 1) as nat, q);
        let u = paths_under(t, p, kids, (fuel - 1) as nat);
        let k = choose|k: int| 0 <= k < u.len() && u[k] == q;
        assert(paths_below(t, p, fuel)[k + 1] == q);
    }
}

proof fn lemma_paths_under_contains<T>(
    t: Seq<NodeModel<T>>,
    p: Seq<NodeId>,
    kids: Seq<NodeId>,
    fuel: nat,
    q: Seq<NodeId>,
)
    requires
        tree_wf(t),
        p.len() >= 1,
        q.len() > p.len(),
        kids.contains(q[p.len() as int]),
        path_extends(t, p.push(q[p.len() as int]), q),
        q.len() - p.len() - 1 <= fuel,
    ensures
        paths_under(t, p, kids, fuel).contains(q),
    decreases fuel, kids.len() + 1,
{
    let c = q[p.len() as int];
    if kids[0] == c {
        lemma_paths_below_contains(t, p.push(c), fuel, q);
        let a = paths_below(t, p.push(c), fuel);
        let k = choose|k: int| 0 <= k < a.len() && a[k] == q;
        assert((a + paths_under(t, p, kids.drop_first(), fuel))[k] == q);
    } else {
        let j = choose|j: int| 0 <= j < kids.len() && kids[j] == c;
        assert(kids.drop_first()[j - 1] == c);
        lemma_paths_under_contains(t, p, kids.drop_first(), fuel, q);
        let a = paths_below(t, p.push(kids[0]), fuel);
        let b = paths_under(t, p, kids.drop_first(), fuel);
        let k = choose|k: int| 0 <= k < b.len() && b[k] == q;
        assert((a + b)[a.len() + k] == q);
    }
}

/// The pre-order walk yields no node twice, and it yields every node that a
/// path from the root reaches (a node that is not linked to the root, such
/// as an orphan, is not reached).
pub proof fn lemma_preorder_visits_once<T>(t: Seq<NodeModel<T>>)
    requires
        tree_wf(t),
    ensures
        forall|i: int, j: int|
            0 <= i < preorder(t).len() && 0 <= j < preorder(t).len() && i != j ==> (#[trigger] preorder(t)[i]).last()
                != (#[trigger] preorder(t)[j]).last(),
        forall|q: Seq<NodeId>| path_extends(t, seq![0usize], q) ==> #[trigger] preorder(t).contains(q),
{
    let r = seq![0usize];
    lemma_preorder_valid(t);
    lemma_paths_below_distinct(t, r, depth_budget(t.len(), r));
    assert forall|i: int, j: int|
        0 <= i < preorder(t).len() && 0 <= j < preorder(t).len() && i != j implies (#[trigger] preorder(t)[i]).last()
            != (#[trigger] preorder(t)[j]).last() by {
        if preorder(t)[i].last() == preorder(t)[j].last() {
            lemma_root_path_unique(t, preorder(t)[i], preorder(t)[j]);
        }
    }
    assert forall|q: Seq<NodeId>| path_extends(t, seq![0usize], q) implies #[trigger] preorder(t).contains(q) by {
        lemma_root_path_simple(t, q);
        lemma_paths_below_contains(t, r, depth_budget(t.len(), r), q);
    }
}

/// The paths still to come from a stack of pending paths, whose top is its
/// last entry.
pub open spec fn pending<T>(t: Seq<NodeModel<T>>, frontier: Seq<Seq<NodeId>>) -> Seq<Seq<NodeId>>
    decreases frontier.len(),
{
    if frontier.len() == 0 {
        seq![]
    } else {
        paths_below(t, frontier.last(), depth_budget(t.len(), frontier.last())) + pending(
            t,
            frontier.drop_last(),
        )
    }
}

/// The depth a path may reach in a tree of `n` nodes.
pub open spec fn depth_budget(n: nat, path: Seq<NodeId>) -> nat {
    if path.len() < n {
        (n - path.len()) as nat
    } else {
        0
    }
}

/// Every root-to-node path of the tree, in depth-first pre-order with
/// children visited in the order they were linked.
pub open spec fn preorder<T>(t: Seq<NodeModel<T>>) -> Seq<Seq<NodeId>> {
    paths_below(t, seq![0], depth_budget(t.len(), seq![0]))
}

impl<T> Tree<T> {
    pub open spec fn wf(&self) -> bool {
        tree_wf(self@)
    }

    /// A tree of one node, the root.
    pub fn new(root: T) -> (r: Tree<T>)
        ensures
            r.wf(),
            r@.len() == 1,
            r@[0] == (NodeModel { data: root, parent: None, children: Seq::<NodeId>::empty() }),
    {
        let mut nodes: Vec<Node<T>> = Vec::new();
        nodes.push(Node::new(root));
        let r = Tree { nodes };
        assert(r@[0].children =~= Seq::<NodeId>::empty());
        r
    }

    /// Appends a node and, when a parent is given, links it as that parent's
    /// last child. Returns the new node's index.
    pub fn insert(&mut self, data: T, parent_id: Option<NodeId>) -> (id: NodeId)
        requires
            old(self).wf(),
            old(self)@.len() < usize::MAX,
            parent_id matches Some(p) ==> p < old(self)@.len(),
        ensures
            final(self).wf(),
            id == old(self)@.len(),
            final(self)@.len() == old(self)@.len() + 1,
            final(self)@[id as int] == (NodeModel {
                data,
                parent: parent_id,
                children: Seq::<NodeId>::empty(),
            }),
            forall|i: int|
                0 <= i < old(self)@.len() && Some(i as NodeId) != parent_id ==> (#[trigger] final(self)@[i]) == old(self)@[i],
            parent_id matches Some(p) ==> final(self)@[p as int] == (NodeModel {
                children: old(self)@[p as int].children.push(id),
                ..old(self)@[p as int]
            }),
    {
        let ghost t0 = self@;
        let id = self.nodes.len();
        let mut node = Node::new(data);
        node.parent = parent_id;
        assert(node@.children =~= Seq::<NodeId>::empty());
        self.nodes.push(node);
        assert(self@ =~= t0.push(NodeModel { data, parent: parent_id, children: Seq::empty() }));
        if let Some(p) = parent_id {
            let mut pn = self.nodes.remove(p);
            let ghost before = self.nodes@;
            pn.children.push(id);
            self.nodes.insert(p, pn);
            assert(self.nodes@ =~= before.insert(p as int, pn));
        }
        proof {
            let t = self@;
            assert(t.len() == t0.len() + 1);
            assert forall|i: int| 0 <= i < t0.len() && Some(i as NodeId) != parent_id implies t[i]
                == t0[i] by {}
            assert(t[id as int].children =~= Seq::<NodeId>::empty());
            if let Some(p) = parent_id {
                assert(t[p as int].children =~= t0[p as int].children.push(id));
                assert(!t0[p as int].children.contains(id));
            }
            assert forall|c: int| 0 <= c < t.len() implies (#[trigger] t[c].parent matches Some(
                q,
            ) ==> t[q as int].children.contains(c as NodeId)) by {
                if let Some(q) = t[c].parent {
                    if c < t0.len() {
                        assert(t0[q as int].children.contains(c as NodeId));
                        if Some(q) == parent_id {
                            let k = t0[q as int].children.index_of(c as NodeId);
                            assert(t[q as int].children[k] == c);
                        }
                    } else {
                        assert(t[q as int].children.last() == c);
                    }
                }
            }
            assert forall|i: int, j: int|
                0 <= i < t.len() && 0 <= j < t[i].children.len() implies is_parent(
                t,
                i,
                #[trigger] t[i].children[j] as int,
            ) by {
                if i < t0.len() && j < t0[i].children.len() {
                    assert(is_parent(t0, i, t0[i].children[j] as int));
                }
            }
        }
        id
    }

    pub fn get(&self, id: NodeId) -> (r: &Node<T>)
        requires
            id < self@.len(),
        ensures
            r@ == self@[id as int],
    {
        &self.nodes[id]
    }

    pub fn get_mut(&mut self, id: NodeId) -> (r: &mut Node<T>)
        requires
            id < old(self)@.len(),
        ensures
            r@ == old(self)@[id as int],
            final(self)@ == old(self)@.update(id as int, final(r)@),
    {
        &mut self.nodes[id]
    }

    /// Links an orphan node under `parent_id`, as that parent's last child.
    pub fn set_parent(&mut self, id: NodeId, parent_id: NodeId)
        requires
            old(self).wf(),
            0 < id < old(self)@.len(),
            parent_id < old(self)@.len(),
            old(self)@[id as int].parent is None,
        ensures
            final(self).wf(),
            ({
                let mid = old(self)@.update(
                    id as int,
                    NodeModel { parent: Some(parent_id), ..old(self)@[id as int] },
                );
                final(self)@ == mid.update(
                    parent_id as int,
                    NodeModel {
                        children: mid[parent_id as int].children.push(id),
                        ..mid[parent_id as int]
                    },
                )
            }),
    {
        let ghost t0 = self@;
        self.nodes[id].link_parent(parent_id);
        let ghost t1 = self@;
        assert(t1 =~= t0.update(id as int, NodeModel { parent: Some(parent_id), ..t0[id as int] }));
        self.nodes[parent_id].push_child(id);
        let ghost t = self@;
        assert(t =~= t1.update(
            parent_id as int,
            NodeModel { children: t1[parent_id as int].children.push(id), ..t1[parent_id as int] },
        ));
        proof {
            assert(!t0[parent_id as int].children.contains(id)) by {
                if t0[parent_id as int].children.contains(id) {
                    let k = t0[parent_id as int].children.index_of(id);
                    assert(is_parent(t0, parent_id as int, t0[parent_id as int].children[k] as int));
                }
            }
            assert forall|c: int| 0 <= c < t.len() implies (#[trigger] t[c].parent matches Some(
                q,
            ) ==> t[q as int].children.contains(c as NodeId)) by {
                if let Some(q) = t[c].parent {
                    if c == id {
                        assert(t[q as int].children.last() == c);
                    } else {
                        assert(t[c].parent == t1[c].parent);
                        assert(t0[c].parent == Some(q));
                        assert(t0[q as int].children.contains(c as NodeId));
                        if q == parent_id {
                            assert(t[q as int].children == t0[q as int].children.push(id));
                            vstd::seq_lib::lemma_seq_contains_after_push(
                                t0[q as int].children,
                                id,
                                c as NodeId,
                            );
                        } else {
                            assert(t[q as int].children == t0[q as int].children);
                        }
                    }
                }
            }
            assert forall|i: int, j: int|
                0 <= i < t.len() && 0 <= j < t[i].children.len() implies is_parent(
                t,
                i,
                #[trigger] t[i].children[j] as int,
            ) by {
                if i == parent_id && j == t0[i].children.len() {
                } else {
                    assert(t[i].children[j] == t0[i].children[j]);
                    assert(is_parent(t0, i, t0[i].children[j] as int));
                }
            }
        }
    }

    /// The child that follows `id` in its parent's children, or `None` for
    /// the root and for a last child.
    pub fn next_sibling(&self, id: NodeId) -> (r: Option<NodeId>)
        requires
            self.wf(),
            id < self@.len(),
        ensures
            r == sibling_after(self@, id as int),
    {
        let parent_id = match self.nodes[id].parent {
            None => {
                return None;
            },
            Some(p) => p,
        };
        let kids = &self.nodes[parent_id].children;
        proof {
            assert(self@[parent_id as int].children == kids@);
            assert(kids@.contains(id));
        }
        let mut k: usize = 0;
        while k < kids.len()
            invariant
                self.wf(),
                id < self@.len(),
                self@[id as int].parent == Some(parent_id),
                parent_id < self@.len(),
                self@[parent_id as int].children == kids@,
                kids@.contains(id),
                0 <= k <= kids@.len(),
                forall|i: int| 0 <= i < k ==> kids@[i] != id,
            decreases kids.len() - k,
        {
            if kids[k] == id {
                proof {
                    assert(kids@.no_duplicates());
                    let j = kids@.index_of(id);
                    assert(j == k);
                }
                if k + 1 < kids.len() {
                    return Some(kids[k + 1]);
                } else {
                    return None;
                }
            }
            k = k + 1;
        }
        proof {
            let j = kids@.index_of(id);
            assert(kids@[j] == id);
        }
        None
    }

    /// An iterator over every root-to-node path, in depth-first pre-order.
    pub fn iter(&self) -> (r: TreeIter<'_, T>)
        requires
            self.wf(),
        ensures
            r.inv(),
            r.tree() == self,
            r.remaining() == preorder(self@),
    {
        TreeIter::new(self)
    }

    /// Every root-to-node path, in depth-first pre-order.
    pub fn paths(&self) -> (r: Vec<Vec<NodeId>>)
        requires
            self.wf(),
        ensures
            r@.map_values(|v: Vec<NodeId>| v@) == preorder(self@),
    {
        let mut it = self.iter();
        let mut out: Vec<Vec<NodeId>> = Vec::new();
        loop
            invariant
                it.inv(),
                it.tree() == self,
                out@.map_values(|v: Vec<NodeId>| v@) + it.remaining() == preorder(self@),
            decreases it.remaining().len(),
        {
            let ghost before = it.remaining();
            match it.next() {
                None => {
                    assert(out@.map_values(|v: Vec<NodeId>| v@) =~= preorder(self@));
                    return out;
                },
                Some(p) => {
                    let ghost o = out@.map_values(|v: Vec<NodeId>| v@);
                    out.push(p);
                    assert(out@.map_values(|v: Vec<NodeId>| v@) =~= o.push(p@));
                    assert(o.push(p@) + it.remaining() =~= o + before);
                },
            }
        }
    }

    pub fn num_nodes(&self) -> (r: usize)
        ensures
            r == self@.len(),
    {
        self.nodes.len()
    }
}

/// Copy of `path` with `c` appended.
fn extended(path: &Vec<NodeId>, c: NodeId) -> (r: Vec<NodeId>)
    ensures
        r@ == path@.push(c),
{
    let mut r: Vec<NodeId> = Vec::new();
    let mut i: usize = 0;
    while i < path.len()
        invariant
            0 <= i <= path@.len(),
            r@ == path@.subrange(0, i as int),
        decreases path.len() - i,
    {
        r.push(path[i]);
        i = i + 1;
        assert(r@ =~= path@.subrange(0, i as int));
    }
    r.push(c);
    assert(r@ =~= path@.push(c));
    r
}

/// Walks a tree in depth-first pre-order, yielding for each node the path
/// from the root to it. A stack of pending paths drives the walk.
#[derive(Debug)]
pub struct TreeIter<'a, T> {
    tree: &'a Tree<T>,
    frontier: Vec<Vec<NodeId>>,
}

impl<'a, T> TreeIter<'a, T> {
    pub closed spec fn tree(&self) -> &'a Tree<T> {
        self.tree
    }

    closed spec fn stack(&self) -> Seq<Seq<NodeId>> {
        self.frontier@.map_values(|v: Vec<NodeId>| v@)
    }

    /// The paths that the iterator has yet to yield, in order.
    pub closed spec fn remaining(&self) -> Seq<Seq<NodeId>> {
        pending(self.tree@, self.stack())
    }

    pub closed spec fn inv(&self) -> bool {
        &&& self.tree.wf()
        &&& forall|i: int|
            0 <= i < self.stack().len() ==> #[trigger] self.stack()[i].len() >= 1
                && self.stack()[i].last() < self.tree@.len()
    }

    fn new(tree: &'a Tree<T>) -> (r: TreeIter<'a, T>)
        requires
            tree.wf(),
        ensures
            r.inv(),
            r.tree() == tree,
            r.remaining() == preorder(tree@),
    {
        let mut root: Vec<NodeId> = Vec::new();
        root.push(0);
        let mut frontier: Vec<Vec<NodeId>> = Vec::new();
        frontier.push(root);
        let r = TreeIter { tree, frontier };
        proof {
            assert(root@ =~= seq![0usize]);
            assert(r.stack() =~= seq![seq![0usize]]);
            assert(r.stack().drop_last() =~= Seq::<Seq<NodeId>>::empty());
            assert(pending(tree@, Seq::<Seq<NodeId>>::empty()) == Seq::<Seq<NodeId>>::empty());
            assert(r.remaining() =~= preorder(tree@));
        }
        r
    }

    /// Yields the next path, or `None` once every path has been yielded.
    pub fn next(&mut self) -> (r: Option<Vec<NodeId>>)
        requires
            old(self).inv(),
        ensures
            final(self).inv(),
            final(self).tree() == old(self).tree(),
            match r {
                None => old(self).remaining().len() == 0 && final(self).remaining().len() == 0,
                Some(p) => old(self).remaining().len() > 0 && p@ == old(self).remaining()[0]
                    && final(self).remaining() == old(self).remaining().drop_first(),
            },
    {
        let ghost t = self.tree@;
        let ghost tr = self.tree;
        let ghost s0 = self.stack();
        let path = match self.frontier.pop() {
            None => {
                assert(s0.len() == 0);
                return None;
            },
            Some(p) => p,
        };
        let ghost base = self.stack();
        proof {
            assert(base =~= s0.drop_last());
            assert(path@ == s0.last());
            assert(s0[s0.len() - 1].len() >= 1);
        }
        let node = self.tree.get(path[path.len() - 1]);
        let kids = node.children();
        if path.len() < self.tree.num_nodes() {
            let mut j: usize = kids.len();
            while j > 0
                invariant
                    self.tree == tr,
                    self.tree@ == t,
                    self.tree.wf(),
                    kids@ == t[path@.last() as int].children,
                    path@.len() >= 1,
                    path@.last() < t.len(),
                    0 <= j <= kids@.len(),
                    forall|i: int|
                        0 <= i < self.stack().len() ==> #[trigger] self.stack()[i].len() >= 1
                            && self.stack()[i].last() < t.len(),
                    path@.len() < t.len(),
                    pending(t, self.stack()) == paths_under(
                        t,
                        path@,
                        kids@.subrange(j as int, kids@.len() as int),
                        (depth_budget(t.len(), path@) - 1) as nat,
                    ) + pending(t, base),
                decreases j,
            {
                let ghost s1 = self.stack();
                let ghost rest = kids@.subrange(j as int, kids@.len() as int);
                let child = kids[j - 1];
                proof {
                    assert(is_parent(t, path@.last() as int, kids@[j - 1] as int));
                }
                self.frontier.push(extended(&path, child));
                j = j - 1;
                proof {
                    let s2 = self.stack();
                    assert(s2 =~= s1.push(path@.push(child)));
                    assert(s2.drop_last() =~= s1);
                    let all = kids@.subrange(j as int, kids@.len() as int);
                    let fu = (depth_budget(t.len(), path@) - 1) as nat;
                    assert(all.drop_first() =~= rest);
                    assert(all[0] == child);
                    assert(depth_budget(t.len(), path@.push(child)) == fu);
                    assert(paths_under(t, path@, all, fu) == paths_below(t, path@.push(child), fu)
                        + paths_under(t, path@, rest, fu));
                    assert(s2.last() == path@.push(child));
                    assert(pending(t, s2) == paths_below(t, path@.push(child), fu) + pending(t, s1));
                    assert(pending(t, s2) =~= paths_under(t, path@, all, fu) + pending(t, base));
                }
            }
            proof {
                assert(kids@.subrange(0, kids@.len() as int) =~= kids@);
                assert(depth_budget(t.len(), path@) > 0);
                assert(paths_below(t, path@, depth_budget(t.len(), path@)) == seq![path@] + paths_under(
                    t,
                    path@,
                    kids@,
                    (depth_budget(t.len(), path@) - 1) as nat,
                ));
                assert(pending(t, s0) == paths_below(t, path@, depth_budget(t.len(), path@)) + pending(t, base));
                assert(pending(t, s0) =~= seq![path@] + pending(t, self.stack()));
            }
        } else {
            proof {
                assert(depth_budget(t.len(), path@) == 0);
                assert(pending(t, s0) == paths_below(t, path@, depth_budget(t.len(), path@)) + pending(t, base));
                assert(pending(t, s0) =~= seq![path@] + pending(t, base));
            }
        }
        Some(path)
    }
}

} // verus!
