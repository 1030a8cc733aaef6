use vstd::prelude::*;
use vstd::string::*;

use crate::tree;
use crate::tui;
use crate::tui::{blank, grid_index, grid_pos, in_rect, on_grid, rect_fits, Cell, Frame};
use crate::util::{rect_height, rect_width, Point, Rect};

verus! {

/// What the renderer needs of a tree: its size, the order of siblings, its
/// root-to-node paths in display order, and the content lines of each node.
pub trait Tree {
    /// Number of nodes.
    spec fn view_size(&self) -> nat;

    /// The sibling that follows a node, if any.
    spec fn view_next_sibling(&self, node: int) -> Option<usize>;

    /// Root-to-node paths in display order.
    spec fn view_paths(&self) -> Seq<Seq<usize>>;

    /// The content lines of a node.
    spec fn view_lines(&self, node: int) -> Seq<Seq<char>>;

    /// Whether the tree is in a state the methods below can serve.
    spec fn ready(&self) -> bool;

    fn size(&self) -> (r: usize)
        requires
            self.ready(),
        ensures
            r == self.view_size(),
    ;

    fn next_sibling(&self, node: usize) -> (r: Option<usize>)
        requires
            self.ready(),
            node < self.view_size(),
        ensures
            r == self.view_next_sibling(node as int),
    ;

    fn node_iter(&self) -> (r: Vec<Vec<usize>>)
        requires
            self.ready(),
        ensures
            r@.map_values(|v: Vec<usize>| v@) == self.view_paths(),
            forall|i: int, j: int|
                0 <= i < r@.len() && 0 <= j < r@[i]@.len() ==> #[trigger] r@[i]@[j]
                    < self.view_size(),
            forall|i: int| 0 <= i < r@.len() ==> #[trigger] r@[i]@.len() >= 1,
    ;

    fn line_iter(&self, node: usize) -> (r: Vec<String>)
        requires
            self.ready(),
            node < self.view_size(),
        ensures
            r@.map_values(|s: String| s@) == self.view_lines(node as int),
    ;
}

/// Content that a node of a `tree::Tree` shows as lines.
pub trait NodeLines {
    spec fn view_lines(&self) -> Seq<Seq<char>>;

    fn lines(&self) -> (r: Vec<String>)
        ensures
            r@.map_values(|s: String| s@) == self.view_lines(),
    ;
}

impl NodeLines for Vec<String> {
    open spec fn view_lines(&self) -> Seq<Seq<char>> {
        self@.map_values(|s: String| s@)
    }

    fn lines(&self) -> (r: Vec<String>) {
        let mut r: Vec<String> = Vec::new();
        let mut i: usize = 0;
        while i < self.len()
            invariant
                0 <= i <= self@.len(),
                r@.len() == i,
                forall|k: int| 0 <= k < i ==> #[trigger] r@[k]@ == self@[k]@,
            decreases self.len() - i,
        {
            let c = self[i].clone();
            assert(c@ == self@[i as int]@);
            r.push(c);
            i = i + 1;
        }
        assert(r@.map_values(|s: String| s@) =~= self@.map_values(|s: String| s@));
        r
    }
}

impl<'a, P: NodeLines> Tree for &'a tree::Tree<P> {
    open spec fn view_size(&self) -> nat {
        (**self)@.len()
    }

    open spec fn view_next_sibling(&self, node: int) -> Option<usize> {
        tree::sibling_after((**self)@, node)
    }

    open spec fn view_paths(&self) -> Seq<Seq<usize>> {
        tree::preorder((**self)@)
    }

    open spec fn view_lines(&self, node: int) -> Seq<Seq<char>> {
        (**self)@[node].data.view_lines()
    }

    open spec fn ready(&self) -> bool {
        (**self).wf()
    }

    fn size(&self) -> (r: usize) {
        self.num_nodes()
    }

    fn next_sibling(&self, node: usize) -> (r: Option<usize>) {
        tree::Tree::next_sibling(*self, node)
    }

    fn node_iter(&self) -> (r: Vec<Vec<usize>>) {
        let r = self.paths();
        proof {
            tree::lemma_preorder_valid((**self)@);
            assert forall|i: int| 0 <= i < r@.len() implies #[trigger] r@[i]@.len() >= 1 by {
                assert(r@.map_values(|v: Vec<usize>| v@)[i] == r@[i]@);
            }
            assert forall|i: int, j: int|
                0 <= i < r@.len() && 0 <= j < r@[i]@.len() implies #[trigger] r@[i]@[j]
                < self.view_size() by {
                assert(r@.map_values(|v: Vec<usize>| v@)[i] == r@[i]@);
            }
        }
        r
    }

    fn line_iter(&self, node: usize) -> (r: Vec<String>) {
        self.get(node).data().lines()
    }
}

/// A path is shown when every node above its last one is expanded.
pub open spec fn visible(expanded: Seq<bool>, path: Seq<usize>) -> bool {
    forall|i: int| 0 <= i < path.len() - 1 ==> #[trigger] expanded[path[i] as int]
}

/// The column drawn for an ancestor: a bar while siblings follow it.
pub open spec fn bar(has_next: bool) -> Seq<char> {
    if has_next {
        "    │   "@
    } else {
        "        "@
    }
}

/// The columns drawn for a run of ancestors, outermost first.
pub open spec fn bars<T: Tree>(t: T, nodes: Seq<usize>) -> Seq<char>
    decreases nodes.len(),
{
    if nodes.len() == 0 {
        Seq::empty()
    } else {
        bars(t, nodes.drop_last()) + bar(t.view_next_sibling(nodes.last() as int) is Some)
    }
}

/// The part of a row that depends on the node's ancestors: one column for
/// each of them strictly between the root and the node's parent.
pub open spec fn path_prefix<T: Tree>(t: T, path: Seq<usize>) -> Seq<char> {
    if path.len() <= 2 {
        Seq::empty()
    } else {
        bars(t, path.subrange(1, path.len() - 1))
    }
}

pub open spec fn marker(expanded: bool) -> Seq<char> {
    if expanded {
        "[+] "@
    } else {
        "[-] "@
    }
}

/// The part of a row that depends on the node itself: a branch and the
/// expand marker on its first line, a continuation on the others.
pub open spec fn line_prefix<T: Tree>(
    t: T,
    expanded: Seq<bool>,
    path: Seq<usize>,
    first: bool,
) -> Seq<char> {
    let id = path.last();
    let m = marker(expanded[id as int]);
    let sib = t.view_next_sibling(id as int) is Some;
    if path.len() <= 1 {
        if first {
            m
        } else {
            "    "@
        }
    } else if first {
        if sib {
            "    ├── "@ + m
        } else {
            "    └── "@ + m
        }
    } else if sib {
        "    │       "@
    } else {
        "            "@
    }
}

/// The rows of the node at the end of `path`.
pub open spec fn node_rows<T: Tree>(t: T, expanded: Seq<bool>, path: Seq<usize>) -> Seq<Seq<char>> {
    t.view_lines(path.last() as int).map(
        |i: int, l: Seq<char>| path_prefix(t, path) + line_prefix(t, expanded, path, i == 0) + l,
    )
}

/// The node that each row of `node_rows` belongs to.
pub open spec fn node_ids<T: Tree>(t: T, path: Seq<usize>) -> Seq<usize> {
    Seq::new(t.view_lines(path.last() as int).len(), |i: int| path.last())
}

/// The rows of the first `k` paths.
pub open spec fn rows_upto<T: Tree>(
    t: T,
    expanded: Seq<bool>,
    paths: Seq<Seq<usize>>,
    k: nat,
) -> Seq<Seq<char>>
    decreases k,
{
    if k == 0 || k > paths.len() {
        seq![]
    } else if visible(expanded, paths[k - 1]) {
        rows_upto(t, expanded, paths, (k - 1) as nat) + node_rows(t, expanded, paths[k - 1])
    } else {
        rows_upto(t, expanded, paths, (k - 1) as nat)
    }
}

/// The node of each row of `rows_upto`.
pub open spec fn ids_upto<T: Tree>(
    t: T,
    expanded: Seq<bool>,
    paths: Seq<Seq<usize>>,
    k: nat,
) -> Seq<usize>
    decreases k,
{
    if k == 0 || k > paths.len() {
        seq![]
    } else if visible(expanded, paths[k - 1]) {
        ids_upto(t, expanded, paths, (k - 1) as nat) + node_ids(t, paths[k - 1])
    } else {
        ids_upto(t, expanded, paths, (k - 1) as nat)
    }
}

/// Every row of the tree under the given expand flags, in display order.
pub open spec fn rendered<T: Tree>(t: T, expanded: Seq<bool>) -> Seq<Seq<char>> {
    rows_upto(t, expanded, t.view_paths(), t.view_paths().len())
}

/// The node of every row of `rendered`.
pub open spec fn rendered_ids<T: Tree>(t: T, expanded: Seq<bool>) -> Seq<usize> {
    ids_upto(t, expanded, t.view_paths(), t.view_paths().len())
}

/// The ancestor columns of a row.
pub fn gen_path_prefix<T: Tree>(tree: &T, path: &Vec<usize>) -> (r: String)
    requires
        tree.ready(),
        path@.len() >= 1,
        forall|j: int| 0 <= j < path@.len() ==> #[trigger] path@[j] < tree.view_size(),
    ensures
        r@ == path_prefix(*tree, path@),
{
    let mut r = String::new();
    if path.len() <= 2 {
        assert(r@ =~= Seq::<char>::empty());
        return r;
    }
    let end = path.len() - 1;
    let mut i: usize = 1;
    assert(path@.subrange(1, 1) =~= Seq::<usize>::empty());
    while i < end
        invariant
            tree.ready(),
            end == path@.len() - 1,
            1 <= i <= end,
            forall|j: int| 0 <= j < path@.len() ==> #[trigger] path@[j] < tree.view_size(),
            r@ == bars(*tree, path@.subrange(1, i as int)),
        decreases end - i,
    {
        let has_next = tree.next_sibling(path[i]).is_some();
        if has_next {
            r.append("    │   ");
        } else {
            r.append("        ");
        }
        proof {
            let nodes = path@.subrange(1, i + 1);
            assert(nodes.drop_last() =~= path@.subrange(1, i as int));
            assert(nodes.last() == path@[i as int]);
        }
        i = i + 1;
    }
    r
}

/// The branch and marker of a node's first row, or the continuation of its
/// other rows.
pub fn gen_line_prefix<T: Tree>(
    tree: &T,
    expanded: &Vec<bool>,
    path: &Vec<usize>,
    is_first_line: bool,
) -> (r: String)
    requires
        tree.ready(),
        path@.len() >= 1,
        path@.last() < tree.view_size(),
        path@.last() < expanded@.len(),
    ensures
        r@ == line_prefix(*tree, expanded@, path@, is_first_line),
{
    let last_id = path[path.len() - 1];
    let expand_marker = if expanded[last_id] {
        "[+] "
    } else {
        "[-] "
    };
    let sib = tree.next_sibling(last_id).is_some();
    let mut r = String::new();
    if path.len() <= 1 {
        if is_first_line {
            r.append(expand_marker);
        } else {
            r.append("    ");
        }
    } else if is_first_line {
        if sib {
            r.append("    ├── ");
        } else {
            r.append("    └── ");
        }
        r.append(expand_marker);
    } else if sib {
        r.append("    │       ");
    } else {
        r.append("            ");
    }
    r
}

/// Whether every node above the last one of `path` is expanded.
fn path_visible(expanded: &Vec<bool>, path: &Vec<usize>) -> (r: bool)
    requires
        forall|j: int| 0 <= j < path@.len() ==> #[trigger] path@[j] < expanded@.len(),
    ensures
        r == visible(expanded@, path@),
{
    let mut i: usize = 0;
    while i < path.len() && i + 1 < path.len()
        invariant
            forall|j: int| 0 <= j < path@.len() ==> #[trigger] path@[j] < expanded@.len(),
            0 <= i <= path@.len(),
            forall|j: int| 0 <= j < i ==> #[trigger] expanded@[path@[j] as int],
        decreases path.len() - i,
    {
        if !expanded[path[i]] {
            return false;
        }
        i = i + 1;
    }
    true
}

/// Generates every visible row and, for each row, the node it belongs to.
fn render<T: Tree>(tree: &T, expanded: &Vec<bool>) -> (r: (Vec<String>, Vec<usize>))
    requires
        tree.ready(),
        expanded@.len() == tree.view_size(),
    ensures
        r.0@.map_values(|s: String| s@) == rendered(*tree, expanded@),
        r.1@ == rendered_ids(*tree, expanded@),
        forall|k: int| 0 <= k < r.1@.len() ==> #[trigger] r.1@[k] < tree.view_size(),
{
    let paths = tree.node_iter();
    let ghost ps = tree.view_paths();
    let mut lines: Vec<String> = Vec::new();
    let mut lookup: Vec<usize> = Vec::new();
    let mut i: usize = 0;
    while i < paths.len()
        invariant
            tree.ready(),
            expanded@.len() == tree.view_size(),
            paths@.map_values(|v: Vec<usize>| v@) == ps,
            ps == tree.view_paths(),
            forall|a: int, b: int|
                0 <= a < paths@.len() && 0 <= b < paths@[a]@.len() ==> #[trigger] paths@[a]@[b]
                    < tree.view_size(),
            forall|a: int| 0 <= a < paths@.len() ==> #[trigger] paths@[a]@.len() >= 1,
            0 <= i <= paths@.len(),
            lines@.map_values(|s: String| s@) == rows_upto(*tree, expanded@, ps, i as nat),
            lookup@ == ids_upto(*tree, expanded@, ps, i as nat),
            forall|k: int| 0 <= k < lookup@.len() ==> #[trigger] lookup@[k] < tree.view_size(),
        decreases paths.len() - i,
    {
        let path = &paths[i];
        let ghost p = path@;
        proof {
            assert(ps[i as int] == p);
            assert(p[p.len() - 1] < tree.view_size());
            assert forall|j: int| 0 <= j < p.len() implies #[trigger] p[j] < expanded@.len() by {
                assert(paths@[i as int]@[j] < tree.view_size());
            }
        }
        if path_visible(expanded, path) {
            let last = path[path.len() - 1];
            let node_prefix = gen_path_prefix(tree, path);
            let first_prefix = gen_line_prefix(tree, expanded, path, true);
            let rest_prefix = gen_line_prefix(tree, expanded, path, false);
            let content = tree.line_iter(last);
            let ghost rows0 = lines@.map_values(|s: String| s@);
            let ghost ids0 = lookup@;
            let ghost want = node_rows(*tree, expanded@, p);
            let mut j: usize = 0;
            while j < content.len()
                invariant
                    0 <= j <= content@.len(),
                    content@.map_values(|s: String| s@) == tree.view_lines(last as int),
                    want == node_rows(*tree, expanded@, p),
                    p.len() >= 1,
                    last == p.last(),
                    node_prefix@ == path_prefix(*tree, p),
                    first_prefix@ == line_prefix(*tree, expanded@, p, true),
                    rest_prefix@ == line_prefix(*tree, expanded@, p, false),
                    lines@.map_values(|s: String| s@) == rows0 + want.subrange(0, j as int),
                    lookup@ == ids0 + node_ids(*tree, p).subrange(0, j as int),
                    last < tree.view_size(),
                    forall|k: int| 0 <= k < lookup@.len() ==> #[trigger] lookup@[k] < tree.view_size(),
                decreases content.len() - j,
            {
                let mut row = node_prefix.clone();
                if j == 0 {
                    row.append(first_prefix.as_str());
                } else {
                    row.append(rest_prefix.as_str());
                }
                row.append(content[j].as_str());
                proof {
                    assert(content@.map_values(|s: String| s@)[j as int] == content@[j as int]@);
                    assert(row@ == want[j as int]);
                }
                let ghost l0 = lines@;
                lines.push(row);
                lookup.push(last);
                j = j + 1;
                proof {
                    assert(lines@.map_values(|s: String| s@) =~= l0.map_values(|s: String| s@).push(
                        row@,
                    ));
                    assert(want.subrange(0, j as int) =~= want.subrange(0, j - 1).push(row@));
                    assert(node_ids(*tree, p).subrange(0, j as int) =~= node_ids(*tree, p).subrange(
                        0,
                        j - 1,
                    ).push(last));
                }
            }
            proof {
                assert(want.subrange(0, j as int) =~= want);
                assert(node_ids(*tree, p).subrange(0, j as int) =~= node_ids(*tree, p));
            }
        }
        i = i + 1;
    }
    (lines, lookup)
}

/// Some node strictly above the last one of `path` is `x`.
pub open spec fn passes_through(path: Seq<usize>, x: usize) -> bool {
    exists|j: int| 0 <= j < path.len() - 1 && path[j] == x
}

proof fn lemma_filter_all<A>(s: Seq<A>, pred: spec_fn(A) -> bool)
    requires
        forall|i: int| 0 <= i < s.len() ==> pred(#[trigger] s[i]),
    ensures
        s.filter(pred) == s,
    decreases s.len(),
{
    reveal(Seq::filter);
    if s.len() > 0 {
        lemma_filter_all(s.drop_last(), pred);
        assert(s.drop_last().push(s.last()) =~= s);
    }
}

proof fn lemma_filter_none<A>(s: Seq<A>, pred: spec_fn(A) -> bool)
    requires
        forall|i: int| 0 <= i < s.len() ==> !pred(#[trigger] s[i]),
    ensures
        s.filter(pred) == Seq::<A>::empty(),
    decreases s.len(),
{
    reveal(Seq::filter);
    if s.len() > 0 {
        lemma_filter_none(s.drop_last(), pred);
    }
}

/// Collapsing `x` hides exactly the paths that pass through `x`, provided
/// that whether a path passes through `x` depends on its last node alone.
proof fn lemma_collapse_ids<T: Tree>(
    t: T,
    expanded: Seq<bool>,
    paths: Seq<Seq<usize>>,
    x: usize,
    keep: spec_fn(usize) -> bool,
    k: nat,
)
    requires
        x < expanded.len(),
        k <= paths.len(),
        forall|a: int, b: int|
            0 <= a < paths.len() && 0 <= b < paths[a].len() ==> #[trigger] paths[a][b] < expanded.len(),
        forall|a: int| 0 <= a < paths.len() ==> #[trigger] paths[a].len() >= 1,
        forall|a: int| 0 <= a < paths.len() ==> keep(#[trigger] paths[a].last()) == !passes_through(paths[a], x),
    ensures
        ids_upto(t, expanded.update(x as int, false), paths, k) == ids_upto(t, expanded, paths, k).filter(keep),
    decreases k,
{
    reveal(Seq::filter);
    let e2 = expanded.update(x as int, false);
    if k > 0 {
        lemma_collapse_ids(t, expanded, paths, x, keep, (k - 1) as nat);
        let p = paths[k - 1];
        let before = ids_upto(t, expanded, paths, (k - 1) as nat);
        let ids = node_ids(t, p);
        assert(visible(e2, p) == (visible(expanded, p) && !passes_through(p, x))) by {
            assert forall|i: int| 0 <= i < p.len() - 1 implies #[trigger] e2[p[i] as int] == (expanded[p[i] as int] && p[i] != x) by {
                assert(paths[k - 1][i] < expanded.len());
            }
            if visible(expanded, p) && !passes_through(p, x) {
                assert forall|i: int| 0 <= i < p.len() - 1 implies #[trigger] e2[p[i] as int] by {
                    assert(e2[p[i] as int] == (expanded[p[i] as int] && p[i] != x));
                }
            }
            if visible(e2, p) {
                assert forall|i: int| 0 <= i < p.len() - 1 implies #[trigger] expanded[p[i] as int] by {
                    assert(e2[p[i] as int] == (expanded[p[i] as int] && p[i] != x));
                }
                if passes_through(p, x) {
                    let j = choose|j: int| 0 <= j < p.len() - 1 && p[j] == x;
                    assert(e2[p[j] as int] == (expanded[p[j] as int] && p[j] != x));
                }
            }
        }
        if visible(expanded, p) {
            Seq::filter_distributes_over_add(before, ids, keep);
            if passes_through(p, x) {
                lemma_filter_none(ids, keep);
                assert(before.filter(keep) + ids.filter(keep) =~= before.filter(keep));
            } else {
                lemma_filter_all(ids, keep);
            }
        }
    }
}

/// The widest of the given rows, in characters.
pub open spec fn max_width(lines: Seq<Seq<char>>) -> nat
    decreases lines.len(),
{
    if lines.len() == 0 {
        0
    } else {
        let w = max_width(lines.drop_last());
        if lines.last().len() > w {
            lines.last().len()
        } else {
            w
        }
    }
}

/// `n` as an `i32`, saturated at `i32::MAX`.
pub open spec fn clamp_i32(n: nat) -> i32 {
    if n <= i32::MAX {
        n as i32
    } else {
        i32::MAX
    }
}

/// `v` brought into `[lo, hi]` (with `lo <= hi`).
pub open spec fn clamp(v: int, lo: int, hi: int) -> int {
    if v > hi {
        hi
    } else if v < lo {
        lo
    } else {
        v
    }
}

/// How far the viewport can scroll along one axis.
pub open spec fn scroll_limit(data: i32, view: i32) -> i32 {
    if data - view > 0 {
        (data - view) as i32
    } else {
        0
    }
}

/// Where a selection moved to `v` lands among `h` rows.
pub open spec fn select_target(v: int, h: int) -> int {
    let a = if v > h - 1 {
        h - 1
    } else {
        v
    };
    if a < 0 {
        0
    } else {
        a
    }
}

/// The state after moving the viewport by `(dx, dy)`, clamped to the
/// scroll limits; it is marked dirty when the viewport moved.
pub open spec fn scrolled(m: TreeViewModel, dx: int, dy: int) -> TreeViewModel {
    let s = Point {
        x: clamp(m.scroll.x + dx, 0, m.scroll_max.x as int) as i32,
        y: clamp(m.scroll.y + dy, 0, m.scroll_max.y as int) as i32,
    };
    TreeViewModel { scroll: s, dirty: m.dirty || s != m.scroll, ..m }
}

/// How far the viewport moves vertically to keep the selection a quarter of
/// the viewport's height away from its top and bottom edges.
pub open spec fn scrolloff_delta(m: TreeViewModel) -> int {
    let so = m.size.y / 4;
    let top = m.scroll.y as int;
    let bot = if m.data_size.y - 1 < top + m.size.y - 1 {
        m.data_size.y - 1
    } else {
        top + m.size.y - 1
    };
    let dt = m.selected_line - top;
    let db = bot - m.selected_line;
    if db < so {
        so - db
    } else if dt < so {
        dt - so
    } else {
        0
    }
}

pub open spec fn with_scrolloff(m: TreeViewModel) -> TreeViewModel {
    scrolled(m, 0, scrolloff_delta(m))
}

/// The state after selecting the row `line`, if it differs from the
/// selected one.
pub open spec fn moved_to(m: TreeViewModel, line: int) -> TreeViewModel {
    if line == m.selected_line {
        m
    } else {
        TreeViewModel { dirty: true, ..with_scrolloff(TreeViewModel { selected_line: line as i32, ..m }) }
    }
}

/// The state after moving the selection by `d` rows.
pub open spec fn selected_by(m: TreeViewModel, d: int) -> TreeViewModel {
    moved_to(m, select_target(m.selected_line + d, m.data_size.y as int))
}

pub open spec fn selected_first(m: TreeViewModel) -> TreeViewModel {
    if m.selected_line > 0 {
        moved_to(m, 0)
    } else {
        m
    }
}

pub open spec fn selected_last(m: TreeViewModel) -> TreeViewModel {
    if m.selected_line < m.data_size.y - 1 {
        moved_to(m, m.data_size.y - 1)
    } else {
        m
    }
}

pub open spec fn scrolled_to_start(m: TreeViewModel) -> TreeViewModel {
    if m.scroll.x > 0 {
        TreeViewModel { scroll: Point { x: 0, y: m.scroll.y }, dirty: true, ..m }
    } else {
        m
    }
}

pub open spec fn scrolled_to_end(m: TreeViewModel) -> TreeViewModel {
    if m.scroll.x < m.scroll_max.x {
        TreeViewModel { scroll: Point { x: m.scroll_max.x, y: m.scroll.y }, dirty: true, ..m }
    } else {
        m
    }
}

/// The state after the viewport takes the size `size`.
pub open spec fn resized(m: TreeViewModel, size: Point) -> TreeViewModel {
    if size == m.size {
        m
    } else {
        scrolled(
            TreeViewModel {
                size,
                scroll_max: Point {
                    x: scroll_limit(m.data_size.x, size.x),
                    y: scroll_limit(m.data_size.y, size.y),
                },
                ..m
            },
            0,
            0,
        )
    }
}

/// The state after flipping the expand flag of the selected row's node:
/// the rows are generated anew, and the selection and the viewport are
/// brought back within the new content.
pub open spec fn toggled<T: Tree>(t: T, m: TreeViewModel) -> TreeViewModel {
    if 0 <= m.selected_line < m.lookup.len() {
        let id = m.lookup[m.selected_line as int];
        let e = m.expanded.update(id as int, !m.expanded[id as int]);
        let lines = rendered(t, e);
        let ds = Point { x: clamp_i32(max_width(lines)), y: clamp_i32(lines.len()) };
        let smax = Point { x: scroll_limit(ds.x, m.size.x), y: scroll_limit(ds.y, m.size.y) };
        TreeViewModel {
            expanded: e,
            lines,
            lookup: rendered_ids(t, e),
            size: m.size,
            data_size: ds,
            scroll: Point {
                x: clamp(m.scroll.x as int, 0, smax.x as int) as i32,
                y: clamp(m.scroll.y as int, 0, smax.y as int) as i32,
            },
            scroll_max: smax,
            selected_line: select_target(m.selected_line as int, ds.y as int) as i32,
            dirty: true,
        }
    } else {
        m
    }
}

/// What a key press does: space toggles the selected node, `j`/`k` move the
/// selection by a row, `d`/`u` by a quarter of the viewport, `g`/`G` to the
/// first and last row, `h`/`l` scroll by a quarter of the width, `0`/`$` to
/// the first and last column. Other keys change nothing.
pub open spec fn key_effect<T: Tree>(t: T, m: TreeViewModel, c: char) -> TreeViewModel {
    if c == ' ' {
        toggled(t, m)
    } else if c == 'h' {
        scrolled(m, -(m.size.x / 4), 0)
    } else if c == 'j' {
        selected_by(m, 1)
    } else if c == 'k' {
        selected_by(m, -1)
    } else if c == 'l' {
        scrolled(m, m.size.x / 4, 0)
    } else if c == '0' {
        scrolled_to_start(m)
    } else if c == '$' {
        scrolled_to_end(m)
    } else if c == 'g' {
        selected_first(m)
    } else if c == 'G' {
        selected_last(m)
    } else if c == 'd' {
        selected_by(m, m.size.y / 4)
    } else if c == 'u' {
        selected_by(m, -(m.size.y / 4))
    } else {
        m
    }
}

/// The character shown at column `col` and row `row` of the viewport.
pub open spec fn shown_char(m: TreeViewModel, col: int, row: int) -> char {
    let ln = m.scroll.y + row;
    let cn = m.scroll.x + col;
    if 0 <= ln < m.lines.len() && 0 <= cn < m.lines[ln].len() {
        m.lines[ln][cn]
    } else {
        ' '
    }
}

/// The cell at `p` of `rect` before the selection is highlighted.
pub open spec fn plain_cell(m: TreeViewModel, rect: &Rect, p: Point) -> Cell {
    Cell { pos: p, c: shown_char(m, p.x - rect.min.x, p.y - rect.min.y), fg: tui::WHITE, bg: tui::DARK_GREY }
}

/// The cell at `p` of `rect` as drawn: the viewport's character, on a
/// lighter background along the selected row.
pub open spec fn drawn_cell(m: TreeViewModel, rect: &Rect, p: Point) -> Cell {
    if p.y - rect.min.y == m.selected_line - m.scroll.y {
        Cell { bg: tui::LIGHT_GREY, ..plain_cell(m, rect, p) }
    } else {
        plain_cell(m, rect, p)
    }
}

/// The size of a rectangle that may be empty.
pub open spec fn rect_extent(r: &Rect) -> Point {
    Point { x: (r.max.x - r.min.x + 1) as i32, y: (r.max.y - r.min.y + 1) as i32 }
}

/// The presentation state of a `TreeView`.
pub struct TreeViewModel {
    pub expanded: Seq<bool>,
    pub lines: Seq<Seq<char>>,
    pub lookup: Seq<usize>,
    pub size: Point,
    pub data_size: Point,
    pub scroll: Point,
    pub scroll_max: Point,
    pub selected_line: i32,
    pub dirty: bool,
}

/// A scrollable, collapsible rendering of a tree.
#[derive(Debug)]
pub struct TreeView<T: Tree> {
    tree: T,
    lines: Vec<String>,
    expanded: Vec<bool>,
    lookup: Vec<usize>,
    size: Point,
    data_size: Point,
    scroll: Point,
    scroll_max: Point,
    selected_line: i32,
    dirty: bool,
}

impl<T: Tree> View for TreeView<T> {
    type V = TreeViewModel;

    closed spec fn view(&self) -> TreeViewModel {
        TreeViewModel {
            expanded: self.expanded@,
            lines: self.lines@.map_values(|s: String| s@),
            lookup: self.lookup@,
            size: self.size,
            data_size: self.data_size,
            scroll: self.scroll,
            scroll_max: self.scroll_max,
            selected_line: self.selected_line,
            dirty: self.dirty,
        }
    }
}

/// The rows and row owners that a state shows, and the extent they take.
pub open spec fn content_matches<T: Tree>(t: T, m: TreeViewModel) -> bool {
    &&& m.expanded.len() == t.view_size()
    &&& m.lines == rendered(t, m.expanded)
    &&& m.lookup == rendered_ids(t, m.expanded)
    &&& m.data_size.y == clamp_i32(m.lines.len())
    &&& m.data_size.x == clamp_i32(max_width(m.lines))
    &&& forall|k: int| 0 <= k < m.lookup.len() ==> #[trigger] m.lookup[k] < m.expanded.len()
}

/// The viewport and selection stay within the content.
pub open spec fn view_bounded(m: TreeViewModel) -> bool {
    &&& m.size.x >= 0
    &&& m.size.y >= 0
    &&& m.scroll_max.x == scroll_limit(m.data_size.x, m.size.x)
    &&& m.scroll_max.y == scroll_limit(m.data_size.y, m.size.y)
    &&& 0 <= m.scroll.x <= m.scroll_max.x
    &&& 0 <= m.scroll.y <= m.scroll_max.y
    &&& 0 <= m.selected_line
    &&& m.selected_line <= m.data_size.y - 1 || m.selected_line == 0
}

impl<T: Tree> TreeView<T> {
    pub closed spec fn tree(&self) -> T {
        self.tree
    }

    pub open spec fn wf(&self) -> bool {
        &&& self.tree().ready()
        &&& content_matches(self.tree(), self@)
        &&& view_bounded(self@)
    }

    /// A view of `tree` with every node expanded, scrolled to the top and
    /// with the first row selected.
    pub fn new(tree: T) -> (r: TreeView<T>)
        requires
            tree.ready(),
        ensures
            r.wf(),
            r.tree() == tree,
            r@.expanded == Seq::new(tree.view_size(), |i: int| true),
            r@.size == (Point { x: 0, y: 0 }),
            r@.scroll == (Point { x: 0, y: 0 }),
            r@.selected_line == 0,
            !r@.dirty,
    {
        let size = tree.size();
        let mut expanded: Vec<bool> = Vec::new();
        let mut i: usize = 0;
        while i < size
            invariant
                0 <= i <= size,
                expanded@ == Seq::new(i as nat, |k: int| true),
            decreases size - i,
        {
            expanded.push(true);
            i = i + 1;
            assert(expanded@ =~= Seq::new(i as nat, |k: int| true));
        }
        let mut tv = TreeView {
            tree,
            lines: Vec::new(),
            expanded,
            lookup: Vec::new(),
            size: Point::new(0, 0),
            data_size: Point::new(0, 0),
            scroll: Point::new(0, 0),
            scroll_max: Point::new(0, 0),
            selected_line: 0,
            dirty: false,
        };
        tv.fetch_lines();
        tv
    }

    /// Regenerates the rows and their owners from the current expand flags,
    /// and recomputes the content extent and the scroll limits.
    fn fetch_lines(&mut self)
        requires
            old(self).tree().ready(),
            old(self)@.expanded.len() == old(self).tree().view_size(),
            old(self)@.size.x >= 0,
            old(self)@.size.y >= 0,
        ensures
            final(self).tree() == old(self).tree(),
            content_matches(final(self).tree(), final(self)@),
            forall|k: int| 0 <= k < final(self)@.lookup.len() ==> #[trigger] final(self)@.lookup[k] < final(self)@.expanded.len(),
            final(self)@.scroll_max.x == scroll_limit(final(self)@.data_size.x, final(self)@.size.x),
            final(self)@.scroll_max.y == scroll_limit(final(self)@.data_size.y, final(self)@.size.y),
            final(self)@.expanded == old(self)@.expanded,
            final(self)@.size == old(self)@.size,
            final(self)@.scroll == old(self)@.scroll,
            final(self)@.selected_line == old(self)@.selected_line,
            final(self)@.dirty == old(self)@.dirty,
    {
        let (lines, lookup) = render(&self.tree, &self.expanded);
        self.lines = lines;
        self.lookup = lookup;
        let n = self.lines.len();
        self.data_size.y = if n <= i32::MAX as usize {
            n as i32
        } else {
            i32::MAX
        };
        let mut w: usize = 0;
        let mut i: usize = 0;
        while i < self.lines.len()
            invariant
                0 <= i <= self.lines@.len(),
                w == max_width(self@.lines.subrange(0, i as int)),
            decreases self.lines.len() - i,
        {
            let l = self.lines[i].as_str().unicode_len();
            proof {
                let sub = self@.lines.subrange(0, i + 1);
                assert(sub.drop_last() =~= self@.lines.subrange(0, i as int));
                assert(sub.last() == self.lines@[i as int]@);
            }
            if l > w {
                w = l;
            }
            i = i + 1;
        }
        assert(self@.lines.subrange(0, i as int) =~= self@.lines);
        self.data_size.x = if w <= i32::MAX as usize {
            w as i32
        } else {
            i32::MAX
        };
        self.update_scroll_max();
    }

    /// Takes a new viewport size; the scroll limits follow and the viewport
    /// is brought back within them.
    pub fn update_size(&mut self, size: Point)
        requires
            old(self).wf(),
            size.x >= 0,
            size.y >= 0,
        ensures
            final(self).wf(),
            final(self).tree() == old(self).tree(),
            final(self)@ == resized(old(self)@, size),
    {
        if self.size != size {
            self.size = size;
            self.update_scroll_max();
            self.scroll_wide(0, 0);
        }
    }

    fn scroll_wide(&mut self, dx: i64, dy: i64)
        requires
            old(self).tree().ready(),
            content_matches(old(self).tree(), old(self)@),
            old(self)@.size.x >= 0,
            old(self)@.size.y >= 0,
            old(self)@.scroll_max.x == scroll_limit(old(self)@.data_size.x, old(self)@.size.x),
            old(self)@.scroll_max.y == scroll_limit(old(self)@.data_size.y, old(self)@.size.y),
            0 <= old(self)@.selected_line,
            old(self)@.selected_line <= old(self)@.data_size.y - 1 || old(self)@.selected_line == 0,
            -0x100_0000_0000 <= dx <= 0x100_0000_0000,
            -0x100_0000_0000 <= dy <= 0x100_0000_0000,
        ensures
            final(self).wf(),
            final(self).tree() == old(self).tree(),
            final(self)@ == scrolled(old(self)@, dx as int, dy as int),
    {
        let old_scroll = self.scroll;
        let mut x: i64 = self.scroll.x as i64 + dx;
        let mut y: i64 = self.scroll.y as i64 + dy;
        if x > self.scroll_max.x as i64 {
            x = self.scroll_max.x as i64;
        } else if x < 0 {
            x = 0;
        }
        if y > self.scroll_max.y as i64 {
            y = self.scroll_max.y as i64;
        } else if y < 0 {
            y = 0;
        }
        self.scroll = Point::new(x as i32, y as i32);
        if self.scroll != old_scroll {
            self.dirty = true;
        }
    }

    /// Moves the viewport by `(dx, dy)`, within the scroll limits.
    pub fn scroll(&mut self, dx: i32, dy: i32)
        requires
            old(self).wf(),
        ensures
            final(self).wf(),
            final(self).tree() == old(self).tree(),
            final(self)@ == scrolled(old(self)@, dx as int, dy as int),
    {
        self.scroll_wide(dx as i64, dy as i64);
    }

    /// Scrolls to the first column.
    pub fn scroll_beg(&mut self)
        requires
            old(self).wf(),
        ensures
            final(self).wf(),
            final(self).tree() == old(self).tree(),
            final(self)@ == scrolled_to_start(old(self)@),
    {
        if self.scroll.x > 0 {
            self.scroll.x = 0;
            self.dirty = true;
        }
    }

    /// Scrolls to the last column.
    pub fn scroll_end(&mut self)
        requires
            old(self).wf(),
        ensures
            final(self).wf(),
            final(self).tree() == old(self).tree(),
            final(self)@ == scrolled_to_end(old(self)@),
    {
        if self.scroll.x < self.scroll_max.x {
            self.scroll.x = self.scroll_max.x;
            self.dirty = true;
        }
    }

    /// Scrolls so that the selection keeps its margin from the viewport's
    /// edges.
    fn handle_scrolloff(&mut self)
        requires
            old(self).wf(),
        ensures
            final(self).wf(),
            final(self).tree() == old(self).tree(),
            final(self)@ == with_scrolloff(old(self)@),
    {
        let scrolloff: i64 = (self.size.y / 4) as i64;
        let line_top: i64 = self.scroll.y as i64;
        let a: i64 = self.data_size.y as i64 - 1;
        let b: i64 = line_top + self.size.y as i64 - 1;
        let line_bot: i64 = if a < b {
            a
        } else {
            b
        };
        let diff_top: i64 = self.selected_line as i64 - line_top;
        let diff_bot: i64 = line_bot - self.selected_line as i64;
        if diff_bot < scrolloff {
            self.scroll_wide(0, scrolloff - diff_bot);
        } else if diff_top < scrolloff {
            self.scroll_wide(0, diff_top - scrolloff);
        } else {
            assert(self@ == scrolled(self@, 0, 0));
        }
    }

    fn move_to(&mut self, line: i32)
        requires
            old(self).wf(),
            0 <= line,
            line <= old(self)@.data_size.y - 1 || line == 0,
        ensures
            final(self).wf(),
            final(self).tree() == old(self).tree(),
            final(self)@ == moved_to(old(self)@, line as int),
    {
        if line != self.selected_line {
            self.selected_line = line;
            self.handle_scrolloff();
            self.dirty = true;
        }
    }

    /// Moves the selection by `d` rows, within the content.
    pub fn select(&mut self, d: i32)
        requires
            old(self).wf(),
        ensures
            final(self).wf(),
            final(self).tree() == old(self).tree(),
            final(self)@ == selected_by(old(self)@, d as int),
    {
        let mut line: i64 = self.selected_line as i64 + d as i64;
        if line > self.data_size.y as i64 - 1 {
            line = self.data_size.y as i64 - 1;
        }
        if line < 0 {
            line = 0;
        }
        self.move_to(line as i32);
    }

    /// Selects the first row.
    pub fn select_first(&mut self)
        requires
            old(self).wf(),
        ensures
            final(self).wf(),
            final(self).tree() == old(self).tree(),
            final(self)@ == selected_first(old(self)@),
    {
        if self.selected_line > 0 {
            self.move_to(0);
        }
    }

    /// Selects the last row.
    pub fn select_last(&mut self)
        requires
            old(self).wf(),
        ensures
            final(self).wf(),
            final(self).tree() == old(self).tree(),
            final(self)@ == selected_last(old(self)@),
    {
        if self.selected_line < self.data_size.y - 1 {
            self.move_to(self.data_size.y - 1);
        }
    }

    /// Flips the expand flag of the node that owns the selected row, then
    /// regenerates the rows and brings the selection and the viewport back
    /// within them.
    pub fn toggle_expand(&mut self)
        requires
            old(self).wf(),
        ensures
            final(self).wf(),
            final(self).tree() == old(self).tree(),
            final(self)@ == toggled(old(self).tree(), old(self)@),
    {
        if self.selected_line >= 0 && (self.selected_line as usize) < self.lookup.len() {
            let id = self.lookup[self.selected_line as usize];
            let v = self.expanded[id];
            self.expanded.set(id, !v);
            self.fetch_lines();
            let h = self.data_size.y;
            if self.selected_line > h - 1 {
                self.selected_line = h - 1;
            }
            if self.selected_line < 0 {
                self.selected_line = 0;
            }
            if self.scroll.x > self.scroll_max.x {
                self.scroll.x = self.scroll_max.x;
            }
            if self.scroll.y > self.scroll_max.y {
                self.scroll.y = self.scroll_max.y;
            }
            self.dirty = true;
        }
    }

    /// The rows, as last generated.
    pub fn lines(&self) -> (r: &Vec<String>)
        ensures
            r@.map_values(|s: String| s@) == self@.lines,
    {
        &self.lines
    }

    /// The node that owns each row, as last generated.
    pub fn lookup(&self) -> (r: &Vec<usize>)
        ensures
            r@ == self@.lookup,
    {
        &self.lookup
    }

    pub fn selected_line(&self) -> (r: i32)
        ensures
            r == self@.selected_line,
    {
        self.selected_line
    }

    pub fn scroll_pos(&self) -> (r: Point)
        ensures
            r == self@.scroll,
    {
        self.scroll
    }

    pub fn is_expanded(&self, id: usize) -> (r: bool)
        requires
            id < self@.expanded.len(),
        ensures
            r == self@.expanded[id as int],
    {
        self.expanded[id]
    }

    fn update_scroll_max(&mut self)
        requires
            old(self)@.size.x >= 0,
            old(self)@.size.y >= 0,
            old(self)@.data_size.x >= 0,
            old(self)@.data_size.y >= 0,
        ensures
            final(self)@ == (TreeViewModel {
                scroll_max: Point {
                    x: scroll_limit(old(self)@.data_size.x, old(self)@.size.x),
                    y: scroll_limit(old(self)@.data_size.y, old(self)@.size.y),
                },
                ..old(self)@
            }),
            final(self).tree() == old(self).tree(),
    {
        self.scroll_max.x = if self.data_size.x - self.size.x > 0 {
            self.data_size.x - self.size.x
        } else {
            0
        };
        self.scroll_max.y = if self.data_size.y - self.size.y > 0 {
            self.data_size.y - self.size.y
        } else {
            0
        };
    }
}

/// Flipping a node's expand flag twice gives back the flags, the rows and
/// the row owners that were there before.
pub proof fn lemma_toggle_twice<T: Tree>(t: T, expanded: Seq<bool>, x: int)
    requires
        0 <= x < expanded.len(),
    ensures
        ({
            let once = expanded.update(x, !expanded[x]);
            let twice = once.update(x, !once[x]);
            &&& twice == expanded
            &&& rendered(t, twice) == rendered(t, expanded)
            &&& rendered_ids(t, twice) == rendered_ids(t, expanded)
        }),
{
    let once = expanded.update(x, !expanded[x]);
    assert(once.update(x, !once[x]) =~= expanded);
}

/// Toggling the selected row's node twice, when the selection still rests
/// on that node after the first toggle, gives back the rows, their owners,
/// the flags and the content extent.
pub proof fn lemma_toggle_round_trip<T: Tree>(t: T, m: TreeViewModel)
    requires
        content_matches(t, m),
        0 <= m.selected_line < m.lookup.len(),
        ({
            let m1 = toggled(t, m);
            0 <= m1.selected_line < m1.lookup.len() && m1.lookup[m1.selected_line as int]
                == m.lookup[m.selected_line as int]
        }),
    ensures
        ({
            let m2 = toggled(t, toggled(t, m));
            &&& m2.expanded == m.expanded
            &&& m2.lines == m.lines
            &&& m2.lookup == m.lookup
            &&& m2.data_size == m.data_size
        }),
{
    let id = m.lookup[m.selected_line as int];
    assert(id < m.expanded.len());
    lemma_toggle_twice(t, m.expanded, id as int);
}

/// Collapsing a node hides the rows of every node below it and no other
/// row: the owners of the rows that remain are the old ones, in order,
/// less the nodes in the collapsed node's subtree (the node itself stays).
pub proof fn lemma_collapse_hides_subtree<P: NodeLines>(
    t: &tree::Tree<P>,
    expanded: Seq<bool>,
    x: usize,
)
    requires
        t.wf(),
        expanded.len() == t@.len(),
        x < t@.len(),
    ensures
        rendered_ids(t, expanded.update(x as int, false)) == rendered_ids(t, expanded).filter(
            |n: usize| !tree::is_below(t@, x, n),
        ),
{
    let ps = tree::preorder(t@);
    let keep = |n: usize| !tree::is_below(t@, x, n);
    tree::lemma_preorder_valid(t@);
    assert forall|a: int| 0 <= a < ps.len() implies keep(#[trigger] ps[a].last()) == !passes_through(ps[a], x) by {
        tree::lemma_path_ancestors(t@, ps[a]);
    }
    lemma_collapse_ids(t, expanded, ps, x, keep, ps.len());
}

impl<T: Tree> tui::Draw for TreeView<T> {
    open spec fn draw_inv(&self) -> bool {
        self.wf()
    }

    /// Takes the rectangle's size as the viewport's and paints the visible
    /// part of the rows into it, the selected row highlighted.
    fn draw(&mut self, rect: &Rect, frame: &mut Frame)
        ensures
            final(self).tree() == old(self).tree(),
            final(self)@ == (TreeViewModel { dirty: false, ..resized(old(self)@, rect_extent(rect)) }),
            forall|i: int|
                0 <= i < final(frame).spec_cells().len() ==> #[trigger] final(frame).spec_cells()[i] == if in_rect(
                    rect,
                    grid_pos(old(frame).spec_size(), i),
                ) {
                    drawn_cell(final(self)@, rect, grid_pos(old(frame).spec_size(), i))
                } else {
                    old(frame).spec_cells()[i]
                },
    {
        let ghost size = frame.spec_size();
        let ghost c0 = frame.spec_cells();
        let cell_count = frame.cells().len();
        proof {
            assert(rect_width(rect) * rect_height(rect) <= size.x * size.y) by (nonlinear_arith)
                requires
                    0 <= rect_width(rect) <= size.x,
                    0 <= rect_height(rect) <= size.y;
            assert(size.x * size.y <= usize::MAX);
        }
        let dims = Point::new(rect.max.x - rect.min.x + 1, rect.max.y - rect.min.y + 1);
        self.update_size(dims);
        frame.clear_rect(rect);
        let ghost m = self@;
        let mut y: i32 = 0;
        while y < self.size.y && (self.scroll.y as usize) + (y as usize) < self.lines.len()
            invariant
                self.wf(),
                self@ == m,
                m.size == dims,
                dims == rect_extent(rect),
                frame.wf(),
                frame.spec_size() == size,
                rect_fits(size, rect),
                c0.len() == frame.spec_cells().len(),
                0 <= y <= m.size.y,
                forall|i: int|
                    0 <= i < frame.spec_cells().len() ==> #[trigger] frame.spec_cells()[i] == if in_rect(
                        rect,
                        grid_pos(size, i),
                    ) {
                        if grid_pos(size, i).y - rect.min.y < y {
                            plain_cell(m, rect, grid_pos(size, i))
                        } else {
                            blank(grid_pos(size, i))
                        }
                    } else {
                        c0[i]
                    },
            decreases m.size.y - y,
        {
            let ln = self.scroll.y as usize + y as usize;
            let line = self.lines[ln].as_str();
            proof {
                assert(self.lines@.map_values(|s: String| s@)[ln as int] == self.lines@[ln as int]@);
            }
            let n = line.unicode_len();
            let mut x: i32 = 0;
            while x < self.size.x && (self.scroll.x as usize) + (x as usize) < n
                invariant
                    self.wf(),
                    self@ == m,
                    m.size == dims,
                    dims == rect_extent(rect),
                    frame.wf(),
                    frame.spec_size() == size,
                    rect_fits(size, rect),
                    c0.len() == frame.spec_cells().len(),
                    0 <= y < m.size.y,
                    0 <= x <= m.size.x,
                    ln == m.scroll.y + y,
                    ln < m.lines.len(),
                    line@ == m.lines[ln as int],
                    n == line@.len(),
                    forall|i: int|
                        0 <= i < frame.spec_cells().len() ==> #[trigger] frame.spec_cells()[i] == if in_rect(
                            rect,
                            grid_pos(size, i),
                        ) {
                            if grid_pos(size, i).y - rect.min.y < y || (grid_pos(size, i).y - rect.min.y
                                == y && grid_pos(size, i).x - rect.min.x < x) {
                                plain_cell(m, rect, grid_pos(size, i))
                            } else {
                                blank(grid_pos(size, i))
                            }
                        } else {
                            c0[i]
                        },
                decreases m.size.x - x,
            {
                let c = line.get_char(self.scroll.x as usize + x as usize);
                let q = Point::new(rect.min.x + x, rect.min.y + y);
                let ghost cs = frame.spec_cells();
                proof {
                    assert(on_grid(size, q));
                    crate::tui::lemma_grid_index(size, q);
                }
                let cell = Cell::new(q, c);
                proof {
                    assert(cell == plain_cell(m, rect, q));
                }
                frame.add(cell);
                proof {
                    let idx = grid_index(size, q);
                    assert forall|i: int| 0 <= i < frame.spec_cells().len() implies #[trigger] frame.spec_cells()[i] == if in_rect(
                        rect,
                        grid_pos(size, i),
                    ) {
                        if grid_pos(size, i).y - rect.min.y < y || (grid_pos(size, i).y - rect.min.y
                            == y && grid_pos(size, i).x - rect.min.x < x + 1) {
                            plain_cell(m, rect, grid_pos(size, i))
                        } else {
                            blank(grid_pos(size, i))
                        }
                    } else {
                        c0[i]
                    } by {
                        crate::tui::lemma_grid_pos(size, i);
                        if i != idx {
                            assert(grid_pos(size, i) != q);
                        }
                    }
                }
                x = x + 1;
            }
            proof {
                assert forall|i: int| 0 <= i < frame.spec_cells().len() implies #[trigger] frame.spec_cells()[i] == if in_rect(
                    rect,
                    grid_pos(size, i),
                ) {
                    if grid_pos(size, i).y - rect.min.y < y + 1 {
                        plain_cell(m, rect, grid_pos(size, i))
                    } else {
                        blank(grid_pos(size, i))
                    }
                } else {
                    c0[i]
                } by {
                    let p = grid_pos(size, i);
                    if in_rect(rect, p) && p.y - rect.min.y == y && p.x - rect.min.x >= x {
                        assert(shown_char(m, p.x - rect.min.x, p.y - rect.min.y) == ' ');
                    }
                }
            }
            y = y + 1;
        }
        proof {
            assert forall|i: int| 0 <= i < frame.spec_cells().len() implies #[trigger] frame.spec_cells()[i] == if in_rect(
                rect,
                grid_pos(size, i),
            ) {
                plain_cell(m, rect, grid_pos(size, i))
            } else {
                c0[i]
            } by {
                let p = grid_pos(size, i);
                if in_rect(rect, p) && p.y - rect.min.y >= y {
                    assert(shown_char(m, p.x - rect.min.x, p.y - rect.min.y) == ' ');
                }
            }
        }
        let row = self.selected_line - self.scroll.y;
        if 0 <= row && row < self.size.y {
            let mut x: i32 = 0;
            while x < self.size.x
                invariant
                    self.wf(),
                    self@ == m,
                    m.size == dims,
                    dims == rect_extent(rect),
                    frame.wf(),
                    frame.spec_size() == size,
                    rect_fits(size, rect),
                    c0.len() == frame.spec_cells().len(),
                    row == m.selected_line - m.scroll.y,
                    0 <= row < m.size.y,
                    0 <= x <= m.size.x,
                    forall|i: int|
                        0 <= i < frame.spec_cells().len() ==> #[trigger] frame.spec_cells()[i] == if in_rect(
                            rect,
                            grid_pos(size, i),
                        ) {
                            if grid_pos(size, i).x - rect.min.x < x {
                                drawn_cell(m, rect, grid_pos(size, i))
                            } else {
                                plain_cell(m, rect, grid_pos(size, i))
                            }
                        } else {
                            c0[i]
                        },
                decreases m.size.x - x,
            {
                let q = Point::new(rect.min.x + x, rect.min.y + row);
                proof {
                    assert(on_grid(size, q));
                    crate::tui::lemma_grid_index(size, q);
                }
                frame.cell_mut(q).bg = tui::LIGHT_GREY;
                proof {
                    let idx = grid_index(size, q);
                    assert forall|i: int| 0 <= i < frame.spec_cells().len() implies #[trigger] frame.spec_cells()[i] == if in_rect(
                        rect,
                        grid_pos(size, i),
                    ) {
                        if grid_pos(size, i).x - rect.min.x < x + 1 {
                            drawn_cell(m, rect, grid_pos(size, i))
                        } else {
                            plain_cell(m, rect, grid_pos(size, i))
                        }
                    } else {
                        c0[i]
                    } by {
                        crate::tui::lemma_grid_pos(size, i);
                        if i != idx {
                            assert(grid_pos(size, i) != q);
                        }
                    }
                }
                x = x + 1;
            }
        } else {
            assert forall|i: int| 0 <= i < frame.spec_cells().len() implies #[trigger] frame.spec_cells()[i] == if in_rect(
                rect,
                grid_pos(size, i),
            ) {
                drawn_cell(m, rect, grid_pos(size, i))
            } else {
                c0[i]
            } by {}
        }
        self.dirty = false;
    }

    fn dirty(&self) -> (r: bool)
        ensures
            r == self@.dirty,
    {
        self.dirty
    }
}

impl<T: Tree> tui::Client for TreeView<T> {
    open spec fn client_inv(&self) -> bool {
        self.wf()
    }

    /// Generates the rows anew, with their owners; the state is unchanged.
    fn gen_lines(&mut self) -> (r: Vec<String>)
        ensures
            final(self).tree() == old(self).tree(),
            final(self)@ == old(self)@,
            r@.map_values(|s: String| s@) == rendered(old(self).tree(), old(self)@.expanded),
    {
        let (lines, lookup) = render(&self.tree, &self.expanded);
        self.lookup = lookup;
        lines
    }

    fn handle_char(&mut self, c: char)
        ensures
            final(self).tree() == old(self).tree(),
            final(self)@ == key_effect(old(self).tree(), old(self)@, c),
    {
        if c == ' ' {
            self.toggle_expand();
        } else if c == 'h' {
            self.scroll(-(self.size.x / 4), 0);
        } else if c == 'j' {
            self.select(1);
        } else if c == 'k' {
            self.select(-1);
        } else if c == 'l' {
            self.scroll(self.size.x / 4, 0);
        } else if c == '0' {
            self.scroll_beg();
        } else if c == '$' {
            self.scroll_end();
        } else if c == 'g' {
            self.select_first();
        } else if c == 'G' {
            self.select_last();
        } else if c == 'd' {
            self.select(self.size.y / 4);
        } else if c == 'u' {
            self.select(-(self.size.y / 4));
        }
    }
}

} // verus!
