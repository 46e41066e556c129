//! The greedy shortest-path search of Myers on the edit graph.
//!
//! For rising numbers of steps right and down, the search finds on every
//! diagonal the furthest point that so many steps reach, from the furthest
//! points that one step less reaches on the two neighbouring diagonals. It
//! ends when it reaches the far corner of the box, and the path that led
//! there is a shortest one. Where two paths reach equally far, the one
//! that comes from the diagonal above is taken.

use vstd::prelude::*;
use crate::edit_graph::{
    cell_matches, dist, is_furthest, lcs_pre, lemma_dist_beyond, lemma_dist_steps, lemma_furthest_root,
    lemma_furthest_step, lemma_pre_is_len, lemma_pre_steps, snake, within,
};
use crate::maximal::{box_maximal, lemma_longest_is_maximal};
use crate::script::{
    bounded_by, box_post, box_pre, extends_within, is_alignment, lcs_len, lemma_bounded_by_weaken,
    lemma_box_post_unchanged, push_match,
};

verus! {

/// One stretch of a path: a step right or down from the end of the parent
/// stretch to `(x0, y0)`, then diagonal steps to `(x1, y1)`. `edits` is the
/// number of steps right and down on the path from the origin.
pub struct Node {
    pub x0: usize,
    pub x1: usize,
    pub y1: usize,
    pub edits: usize,
    pub parent: Option<usize>,
}

impl Node {
    /// The second coordinate of the point where the diagonal steps begin.
    pub open spec fn y0(self) -> int {
        self.y1 - (self.x1 - self.x0)
    }

    /// The diagonal on which the stretch ends.
    pub open spec fn diagonal(self) -> int {
        self.x1 - self.y1
    }
}

/// The number of diagonal steps on the path from the origin to the end of
/// the stretch `nodes[i]`.
pub open spec fn path_matches(nodes: Seq<Node>, i: int) -> int
    decreases i,
{
    if i < 0 || i >= nodes.len() {
        0
    } else {
        (nodes[i].x1 - nodes[i].x0) + match nodes[i].parent {
            Some(p) => if p < i {
                path_matches(nodes, p as int)
            } else {
                0
            },
            None => 0,
        }
    }
}

/// The stretch `nodes[i]` is in order: its diagonal steps pass only equal
/// elements of `la` and `lb`, it begins one step from the end of an
/// earlier stretch or, without a parent, at the origin, and it counts the
/// steps right and down that lead to it.
pub open spec fn node_ok(la: Seq<usize>, lb: Seq<usize>, nodes: Seq<Node>, i: int) -> bool {
    let nd = nodes[i];
    &&& nd.x0 <= nd.x1
    &&& nd.x1 - nd.x0 <= nd.y1
    &&& nd.edits <= la.len() + lb.len()
    &&& nd.x1 <= la.len() + nd.edits
    &&& nd.y1 <= lb.len() + nd.edits
    &&& forall|t: int| nd.x0 <= t < nd.x1 ==> #[trigger] cell_matches(la, lb, t, t - nd.diagonal())
    &&& nd.x1 + nd.y1 == nd.edits + 2 * path_matches(nodes, i)
    &&& match nd.parent {
        Some(p) => {
            &&& p < i
            &&& nd.edits == nodes[p as int].edits + 1
            &&& {
                ||| (nd.x0 == nodes[p as int].x1 + 1 && nd.y0() == nodes[p as int].y1)
                ||| (nd.x0 == nodes[p as int].x1 && nd.y0() == nodes[p as int].y1 + 1)
            }
        },
        None => nd.x0 == 0 && nd.y0() == 0 && nd.edits == 0,
    }
}

/// All stretches are in order.
pub open spec fn nodes_ok(la: Seq<usize>, lb: Seq<usize>, nodes: Seq<Node>) -> bool {
    forall|i: int| 0 <= i < nodes.len() ==> #[trigger] node_ok(la, lb, nodes, i)
}

/// A stretch added behind the others leaves their paths as they are.
pub proof fn lemma_path_matches_push(nodes: Seq<Node>, node: Node, i: int)
    requires
        0 <= i < nodes.len(),
    ensures
        path_matches(nodes.push(node), i) == path_matches(nodes, i),
    decreases i,
{
    let more = nodes.push(node);
    assert(more[i] == nodes[i]);
    match nodes[i].parent {
        Some(p) => {
            if p < i {
                lemma_path_matches_push(nodes, node, p as int);
            }
        },
        None => {},
    }
}

/// The entry of the table for the diagonal `k` names a stretch of `e`
/// steps that ends at the furthest point of the diagonal that `e` steps
/// reach, and that is not the far corner.
pub open spec fn entry_ok(
    la: Seq<usize>,
    lb: Seq<usize>,
    v: Seq<Option<usize>>,
    nodes: Seq<Node>,
    off: int,
    k: int,
    e: int,
) -> bool {
    match v[k + off] {
        Some(i) => {
            &&& i < nodes.len()
            &&& nodes[i as int].diagonal() == k
            &&& nodes[i as int].edits == e
            &&& is_furthest(la, lb, e, k, nodes[i as int].x1 as int)
            &&& !(nodes[i as int].x1 == la.len() && nodes[i as int].y1 == lb.len())
        },
        None => false,
    }
}

/// `k` and `e` are both even or both odd.
pub open spec fn same_parity(k: int, e: int) -> bool {
    (k - e) % 2 == 0
}

/// The table before the step `d` of the search: the diagonals that the
/// step reads hold the furthest points that `d - 1` steps reach, and the
/// diagonals that no `d - 1` steps reach hold nothing.
pub open spec fn table_ready(
    la: Seq<usize>,
    lb: Seq<usize>,
    v: Seq<Option<usize>>,
    nodes: Seq<Node>,
    off: int,
    d: int,
) -> bool {
    &&& v.len() == 2 * off + 1
    &&& forall|k: int|
        -(d - 1) <= k <= d - 1 && same_parity(k, d - 1) ==> #[trigger] entry_ok(la, lb, v, nodes, off, k, d - 1)
    &&& forall|k: int| -off <= k <= off && (k < -(d - 1) || k > d - 1) ==> (#[trigger] v[k + off]) is None
}

/// The table during the step `d`, with the diagonals below `next` done.
pub open spec fn table_stepping(
    la: Seq<usize>,
    lb: Seq<usize>,
    v: Seq<Option<usize>>,
    nodes: Seq<Node>,
    off: int,
    d: int,
    next: int,
) -> bool {
    &&& v.len() == 2 * off + 1
    &&& forall|k: int|
        -(d - 1) <= k <= d - 1 && same_parity(k, d - 1) ==> #[trigger] entry_ok(la, lb, v, nodes, off, k, d - 1)
    &&& forall|k: int| -d <= k < next && same_parity(k, d) ==> #[trigger] entry_ok(la, lb, v, nodes, off, k, d)
    &&& forall|k: int| -off <= k <= off && (k < -d || k > d) ==> (#[trigger] v[k + off]) is None
    &&& forall|k: int|
        -off <= k <= off && same_parity(k, d - 1) && (k < -(d - 1) || k > d - 1) ==> (#[trigger] v[k + off]) is None
}

/// Follows the diagonal from `(x, y)` as long as both sequences hold equal
/// elements, and returns the first coordinate of the point where that ends.
fn follow_snake(
    a: &Vec<usize>,
    b: &Vec<usize>,
    alo: usize,
    ahi: usize,
    blo: usize,
    bhi: usize,
    x: usize,
    y: usize,
) -> (x1: usize)
    requires
        alo <= ahi <= a@.len(),
        blo <= bhi <= b@.len(),
    ensures
        snake(
            a@.subrange(alo as int, ahi as int),
            b@.subrange(blo as int, bhi as int),
            x - y,
            x as int,
            x1 as int,
        ),
        x1 > x ==> x1 <= ahi - alo && y + (x1 - x) <= bhi - blo,
{
    let n: usize = ahi - alo;
    let m: usize = bhi - blo;
    let ghost la = a@.subrange(alo as int, ahi as int);
    let ghost lb = b@.subrange(blo as int, bhi as int);
    let mut cx: usize = x;
    let mut cy: usize = y;
    while cx < n && cy < m && a[alo + cx] == b[blo + cy]
        invariant
            alo <= ahi <= a@.len(),
            blo <= bhi <= b@.len(),
            n == ahi - alo,
            m == bhi - blo,
            la == a@.subrange(alo as int, ahi as int),
            lb == b@.subrange(blo as int, bhi as int),
            x <= cx,
            cy - y == cx - x,
            cx > x ==> cx <= n && cy <= m,
            forall|t: int| x <= t < cx ==> #[trigger] cell_matches(la, lb, t, t - (x - y)),
        decreases n - cx,
    {
        proof {
            assert(la[cx as int] == a@[alo + cx]);
            assert(lb[cy as int] == b@[blo + cy]);
            assert(cell_matches(la, lb, cx as int, cx - (x - y)));
        }
        cx += 1;
        cy += 1;
    }
    proof {
        if cx < n && cy < m {
            assert(la[cx as int] == a@[alo + cx]);
            assert(lb[cy as int] == b@[blo + cy]);
        }
    }
    cx
}

/// The point from which the step onto a diagonal starts, and the stretch
/// that it continues.
pub struct Step {
    pub parent: usize,
    pub x: usize,
    pub y: usize,
}

/// Picks, for the diagonal `k` with the table index `idx`, the stretch to
/// continue and the point where the continuation starts: one step down
/// from the stretch on the diagonal above, or one step right from the
/// stretch on the diagonal below, whichever starts further along; the step
/// down where both start at the same place.
fn choose_step(
    nodes: &Vec<Node>,
    v: &Vec<Option<usize>>,
    idx: usize,
    off: usize,
    d: usize,
    Ghost(la): Ghost<Seq<usize>>,
    Ghost(lb): Ghost<Seq<usize>>,
) -> (r: Step)
    requires
        off == la.len() + lb.len(),
        2 * off + 4 <= usize::MAX,
        1 <= d <= off,
        off - d <= idx <= off + d,
        same_parity(idx - off, d as int),
        nodes_ok(la, lb, nodes@),
        table_stepping(la, lb, v@, nodes@, off as int, d as int, idx - off),
    ensures
        r.parent < nodes@.len(),
        nodes@[r.parent as int].edits == d - 1,
        r.x - r.y == idx - off,
        (r.x == nodes@[r.parent as int].x1 + 1 && r.y == nodes@[r.parent as int].y1) || (r.x
            == nodes@[r.parent as int].x1 && r.y == nodes@[r.parent as int].y1 + 1),
        forall|end: int| #[trigger]
            snake(la, lb, idx - off, r.x as int, end) ==> is_furthest(la, lb, d as int, idx - off, end),
{
    let ghost k = idx - off;
    let mut down: Option<usize> = None;
    let mut right: Option<usize> = None;
    if idx + 1 <= off + off {
        down = v[idx + 1];
    }
    if idx >= 1 {
        right = v[idx - 1];
    }
    proof {
        assert(same_parity(k + 1, d - 1) && same_parity(k - 1, d - 1)) by {
            assert((k - d) % 2 == 0);
        }
        if k + 1 <= d - 1 {
            assert(entry_ok(la, lb, v@, nodes@, off as int, k + 1, d - 1));
        } else if idx + 1 <= off + off {
            assert(v@[(k + 1) + off] is None);
        }
        if k - 1 >= -(d - 1) {
            assert(entry_ok(la, lb, v@, nodes@, off as int, k - 1, d - 1));
        } else if idx >= 1 {
            assert(v@[(k - 1) + off] is None);
        }
    }
    let ghost down_x: Option<int> = match down {
        Some(p) => Some(nodes@[p as int].x1 as int),
        None => None,
    };
    let ghost right_x: Option<int> = match right {
        Some(p) => Some(nodes@[p as int].x1 as int),
        None => None,
    };
    let step: Step = match (down, right) {
        (Some(pd), Some(pr)) => {
            assert(node_ok(la, lb, nodes@, pd as int));
            assert(node_ok(la, lb, nodes@, pr as int));
            if nodes[pr].x1 + 1 > nodes[pd].x1 {
                Step { parent: pr, x: nodes[pr].x1 + 1, y: nodes[pr].y1 }
            } else {
                Step { parent: pd, x: nodes[pd].x1, y: nodes[pd].y1 + 1 }
            }
        },
        (Some(pd), None) => {
            assert(node_ok(la, lb, nodes@, pd as int));
            Step { parent: pd, x: nodes[pd].x1, y: nodes[pd].y1 + 1 }
        },
        (None, Some(pr)) => {
            assert(node_ok(la, lb, nodes@, pr as int));
            Step { parent: pr, x: nodes[pr].x1 + 1, y: nodes[pr].y1 }
        },
        (None, None) => {
            // One of the two neighbours lies within the reach of the
            // step before.
            proof {
                assert(k + 1 <= d - 1 || k - 1 >= -(d - 1));
            }
            vstd::pervasive::unreached()
        },
    };
    proof {
        assert forall|end: int| #[trigger] snake(la, lb, k, step.x as int, end) implies is_furthest(
            la,
            lb,
            d as int,
            k,
            end,
        ) by {
            lemma_furthest_step(la, lb, d as int, k, down_x, right_x, step.x as int, end);
        }
    }
    step
}

/// Adds the stretch that starts at the point of `step` and follows the
/// diagonal from there.
fn add_stretch(
    a: &Vec<usize>,
    b: &Vec<usize>,
    alo: usize,
    ahi: usize,
    blo: usize,
    bhi: usize,
    nodes: &mut Vec<Node>,
    step: &Step,
    d: usize,
) -> (at: usize)
    requires
        alo <= ahi <= a@.len(),
        blo <= bhi <= b@.len(),
        2 * ((ahi - alo) + (bhi - blo)) + 4 <= usize::MAX,
        1 <= d <= (ahi - alo) + (bhi - blo),
        nodes_ok(a@.subrange(alo as int, ahi as int), b@.subrange(blo as int, bhi as int), old(nodes)@),
        step.parent < old(nodes)@.len(),
        old(nodes)@[step.parent as int].edits == d - 1,
        (step.x == old(nodes)@[step.parent as int].x1 + 1 && step.y == old(nodes)@[step.parent as int].y1)
            || (step.x == old(nodes)@[step.parent as int].x1 && step.y == old(
            nodes,
        )@[step.parent as int].y1 + 1),
    ensures
        at == old(nodes)@.len(),
        final(nodes)@ == old(nodes)@.push(final(nodes)@[at as int]),
        final(nodes)@[at as int].edits == d,
        final(nodes)@[at as int].diagonal() == step.x - step.y,
        snake(
            a@.subrange(alo as int, ahi as int),
            b@.subrange(blo as int, bhi as int),
            step.x - step.y,
            step.x as int,
            final(nodes)@[at as int].x1 as int,
        ),
        nodes_ok(a@.subrange(alo as int, ahi as int), b@.subrange(blo as int, bhi as int), final(nodes)@),
{
    let ghost la = a@.subrange(alo as int, ahi as int);
    let ghost lb = b@.subrange(blo as int, bhi as int);
    assert(node_ok(la, lb, nodes@, step.parent as int));
    let end_x: usize = follow_snake(a, b, alo, ahi, blo, bhi, step.x, step.y);
    let end_y: usize = step.y + (end_x - step.x);
    let node = Node { x0: step.x, x1: end_x, y1: end_y, edits: d, parent: Some(step.parent) };
    let at: usize = nodes.len();
    proof {
        let old_nodes = nodes@;
        let new_nodes = nodes@.push(node);
        lemma_path_matches_push(old_nodes, node, step.parent as int);
        assert forall|i: int| 0 <= i < new_nodes.len() implies #[trigger] node_ok(la, lb, new_nodes, i) by {
            if i < old_nodes.len() {
                assert(node_ok(la, lb, old_nodes, i));
                lemma_path_matches_push(old_nodes, node, i);
                assert(new_nodes[i] == old_nodes[i]);
            } else {
                assert(new_nodes[i] == node);
                assert(path_matches(new_nodes, i) == (node.x1 - node.x0) + path_matches(
                    new_nodes,
                    step.parent as int,
                ));
            }
        }
    }
    nodes.push(node);
    at
}

/// The far corner lies no nearer to the origin than `d` steps.
pub open spec fn corner_beyond(la: Seq<usize>, lb: Seq<usize>, d: int) -> bool {
    dist(la, lb, la.len() as int, lb.len() as int) >= d
}

/// Along a diagonal the distance does not fall.
pub proof fn lemma_dist_along(la: Seq<usize>, lb: Seq<usize>, k: int, x: int, z: int)
    requires
        0 <= x <= z,
        0 <= x - k,
    ensures
        dist(la, lb, x, x - k) <= dist(la, lb, z, z - k),
    decreases z - x,
{
    if x < z {
        lemma_dist_along(la, lb, k, x, z - 1);
        lemma_dist_steps(la, lb, z - 1, z - 1 - k);
    }
}

/// The distance of a point and the number of its diagonal are both even
/// or both odd.
pub proof fn lemma_dist_parity(la: Seq<usize>, lb: Seq<usize>, x: int, y: int)
    requires
        0 <= x,
        0 <= y,
    ensures
        same_parity(x - y, dist(la, lb, x, y)),
{
    let f = lcs_pre(la, lb, x, y) as int;
    assert((x - y) - (x + y - 2 * f) == 2 * (f - y));
    assert((2 * (f - y)) % 2 == 0) by (nonlinear_arith);
}

/// After a step `d` that did not reach the far corner, the corner lies
/// further than `d` steps from the origin.
pub proof fn lemma_corner_not_reached(
    la: Seq<usize>,
    lb: Seq<usize>,
    v: Seq<Option<usize>>,
    nodes: Seq<Node>,
    off: int,
    d: int,
)
    requires
        off == la.len() + lb.len(),
        0 <= d,
        corner_beyond(la, lb, d),
        forall|k: int| -d <= k <= d && same_parity(k, d) ==> #[trigger] entry_ok(la, lb, v, nodes, off, k, d),
    ensures
        corner_beyond(la, lb, d + 1),
{
    let n = la.len() as int;
    let m = lb.len() as int;
    let k = n - m;
    lemma_dist_steps(la, lb, n, m);
    lemma_dist_parity(la, lb, n, m);
    if dist(la, lb, n, m) == d {
        assert(-d <= k <= d);
        assert(same_parity(k, d));
        assert(entry_ok(la, lb, v, nodes, off, k, d));
        let i = v[k + off]->0;
        let far = nodes[i as int].x1 as int;
        assert(within(la, lb, d, k, n));
        assert(n <= far);
        assert(far > n);
        lemma_dist_along(la, lb, k, n + 1, far);
        lemma_dist_beyond(la, lb, n, m);
    }
}

/// Searches a shortest path through the box and returns the stretches of
/// the search and the one that reaches the far corner.
fn search(a: &Vec<usize>, b: &Vec<usize>, alo: usize, ahi: usize, blo: usize, bhi: usize) -> (r: (
    Vec<Node>,
    usize,
))
    requires
        alo <= ahi <= a@.len(),
        blo <= bhi <= b@.len(),
        2 * (a@.len() + b@.len()) + 4 <= usize::MAX,
    ensures
        nodes_ok(a@.subrange(alo as int, ahi as int), b@.subrange(blo as int, bhi as int), r.0@),
        r.1 < r.0@.len(),
        r.0@[r.1 as int].x1 == ahi - alo,
        r.0@[r.1 as int].y1 == bhi - blo,
        r.0@[r.1 as int].edits == dist(
            a@.subrange(alo as int, ahi as int),
            b@.subrange(blo as int, bhi as int),
            ahi - alo,
            bhi - blo,
        ),
{
    let n: usize = ahi - alo;
    let m: usize = bhi - blo;
    let off: usize = n + m;
    let ghost la = a@.subrange(alo as int, ahi as int);
    let ghost lb = b@.subrange(blo as int, bhi as int);
    let mut nodes: Vec<Node> = Vec::new();
    let mut v: Vec<Option<usize>> = Vec::new();
    let mut f: usize = 0;
    while f < 2 * off + 1
        invariant
            f <= 2 * off + 1,
            2 * off + 4 <= usize::MAX,
            v@.len() == f,
            forall|i: int| 0 <= i < f ==> (#[trigger] v@[i]) is None,
        decreases 2 * off + 1 - f,
    {
        v.push(None);
        f += 1;
    }
    let root_end: usize = follow_snake(a, b, alo, ahi, blo, bhi, 0, 0);
    let root = Node { x0: 0, x1: root_end, y1: root_end, edits: 0, parent: None };
    proof {
        let first = nodes@.push(root);
        assert(path_matches(first, 0) == root_end);
        assert(node_ok(la, lb, first, 0));
        lemma_furthest_root(la, lb, root_end as int);
        lemma_dist_steps(la, lb, n as int, m as int);
    }
    nodes.push(root);
    if root_end == n && root_end == m {
        return (nodes, 0);
    }
    v.set(off, Some(0));
    proof {
        assert(entry_ok(la, lb, v@, nodes@, off as int, 0, 0));
        assert forall|k: int| -0 <= k <= 0 && same_parity(k, 0) implies #[trigger] entry_ok(
            la,
            lb,
            v@,
            nodes@,
            off as int,
            k,
            0,
        ) by {}
        lemma_corner_not_reached(la, lb, v@, nodes@, off as int, 0);
    }
    let mut d: usize = 1;
    while d <= off
        invariant
            alo <= ahi <= a@.len(),
            blo <= bhi <= b@.len(),
            n == ahi - alo,
            m == bhi - blo,
            off == n + m,
            la == a@.subrange(alo as int, ahi as int),
            lb == b@.subrange(blo as int, bhi as int),
            2 * off + 4 <= usize::MAX,
            1 <= d <= off + 1,
            nodes_ok(la, lb, nodes@),
            table_ready(la, lb, v@, nodes@, off as int, d as int),
            corner_beyond(la, lb, d as int),
        decreases off + 1 - d,
    {
        let mut idx: usize = off - d;
        while idx <= off + d
            invariant
                alo <= ahi <= a@.len(),
                blo <= bhi <= b@.len(),
                n == ahi - alo,
                m == bhi - blo,
                off == n + m,
                la == a@.subrange(alo as int, ahi as int),
                lb == b@.subrange(blo as int, bhi as int),
                2 * off + 4 <= usize::MAX,
                1 <= d <= off,
                off - d <= idx <= off + d + 2,
                same_parity(idx - off, d as int),
                nodes_ok(la, lb, nodes@),
                table_stepping(la, lb, v@, nodes@, off as int, d as int, idx - off),
                corner_beyond(la, lb, d as int),
            decreases off + d + 2 - idx,
        {
            let step = choose_step(&nodes, &v, idx, off, d, Ghost(la), Ghost(lb));
            let ghost old_nodes = nodes@;
            let ghost old_v = v@;
            let at: usize = add_stretch(a, b, alo, ahi, blo, bhi, &mut nodes, &step, d);
            if nodes[at].x1 == n && nodes[at].y1 == m {
                proof {
                    assert(is_furthest(la, lb, d as int, idx - off, n as int));
                }
                return (nodes, at);
            }
            v.set(idx, Some(at));
            proof {
                lemma_table_set(la, lb, old_v, v@, old_nodes, nodes@, off as int, d as int, idx - off, at);
            }
            idx += 2;
        }
        proof {
            assert forall|k: int| -d <= k <= d && same_parity(k, d as int) implies #[trigger] entry_ok(
                la,
                lb,
                v@,
                nodes@,
                off as int,
                k,
                d as int,
            ) by {}
            lemma_corner_not_reached(la, lb, v@, nodes@, off as int, d as int);
        }
        d += 1;
    }
    proof {
        lemma_pre_steps(la, lb, n as int, m as int);
    }
    vstd::pervasive::unreached()
}

/// The table stays in order when the entry of the diagonal `k` is set to
/// the stretch that was added last.
pub proof fn lemma_table_set(
    la: Seq<usize>,
    lb: Seq<usize>,
    old_v: Seq<Option<usize>>,
    new_v: Seq<Option<usize>>,
    old_nodes: Seq<Node>,
    new_nodes: Seq<Node>,
    off: int,
    d: int,
    k: int,
    at: usize,
)
    requires
        1 <= d <= off,
        -d <= k <= d,
        same_parity(k, d),
        table_stepping(la, lb, old_v, old_nodes, off, d, k),
        at == old_nodes.len(),
        new_nodes == old_nodes.push(new_nodes[at as int]),
        new_v == old_v.update(k + off, Some(at)),
        new_nodes[at as int].diagonal() == k,
        new_nodes[at as int].edits == d,
        is_furthest(la, lb, d, k, new_nodes[at as int].x1 as int),
        !(new_nodes[at as int].x1 == la.len() && new_nodes[at as int].y1 == lb.len()),
    ensures
        table_stepping(la, lb, new_v, new_nodes, off, d, k + 2),
{
    assert forall|j: int| -(d - 1) <= j <= d - 1 && same_parity(j, d - 1) implies #[trigger] entry_ok(
        la,
        lb,
        new_v,
        new_nodes,
        off,
        j,
        d - 1,
    ) by {
        assert(entry_ok(la, lb, old_v, old_nodes, off, j, d - 1));
        assert(j != k) by {
            if j == k {
                assert((k - d) % 2 == 0);
                assert((k - (d - 1)) % 2 == 0);
            }
        }
        assert(new_v[j + off] == old_v[j + off]);
        let i = old_v[j + off]->0;
        assert(new_nodes[i as int] == old_nodes[i as int]);
    }
    assert forall|j: int| -d <= j < k + 2 && same_parity(j, d) implies #[trigger] entry_ok(
        la,
        lb,
        new_v,
        new_nodes,
        off,
        j,
        d,
    ) by {
        if j < k {
            assert(entry_ok(la, lb, old_v, old_nodes, off, j, d));
            assert(new_v[j + off] == old_v[j + off]);
            let i = old_v[j + off]->0;
            assert(new_nodes[i as int] == old_nodes[i as int]);
        } else {
            assert(j == k) by {
                if j == k + 1 {
                    assert((k - d) % 2 == 0);
                    assert((k + 1 - d) % 2 == 0);
                }
            }
        }
    }
    assert forall|j: int| -off <= j <= off && (j < -d || j > d) implies (#[trigger] new_v[j + off]) is None by {
        assert(old_v[j + off] is None);
    }
    assert forall|j: int|
        -off <= j <= off && same_parity(j, d - 1) && (j < -(d - 1) || j > d - 1) implies (#[trigger] new_v[j
        + off]) is None by {
        assert(old_v[j + off] is None);
        assert(j != k) by {
            if j == k {
                assert((k - d) % 2 == 0);
                assert((k - (d - 1)) % 2 == 0);
            }
        }
    }
}

/// Pairs of the box, given from its start, that fall strictly from one to
/// the next on both sides and hold equal elements.
pub open spec fn falling_pairs(
    a: Seq<usize>,
    b: Seq<usize>,
    alo: int,
    blo: int,
    n: int,
    m: int,
    rev: Seq<(usize, usize)>,
) -> bool {
    &&& forall|k: int|
        0 <= k < rev.len() ==> (#[trigger] rev[k]).0 < n && rev[k].1 < m && a[alo + rev[k].0] == b[blo
            + rev[k].1]
    &&& forall|k: int, l: int|
        0 <= k < l < rev.len() ==> (#[trigger] rev[l]).0 < (#[trigger] rev[k]).0 && rev[l].1 < rev[k].1
}

/// Collects, from the end of the path back to its start, the pairs that
/// the diagonal steps of the path to the stretch `last` keep.
fn collect_pairs(
    nodes: &Vec<Node>,
    last: usize,
    Ghost(a): Ghost<Seq<usize>>,
    Ghost(b): Ghost<Seq<usize>>,
    Ghost(alo): Ghost<int>,
    Ghost(ahi): Ghost<int>,
    Ghost(blo): Ghost<int>,
    Ghost(bhi): Ghost<int>,
) -> (rev: Vec<(usize, usize)>)
    requires
        0 <= alo <= ahi <= a.len(),
        0 <= blo <= bhi <= b.len(),
        nodes_ok(a.subrange(alo, ahi), b.subrange(blo, bhi), nodes@),
        last < nodes@.len(),
    ensures
        falling_pairs(a, b, alo, blo, ahi - alo, bhi - blo, rev@),
        rev@.len() == path_matches(nodes@, last as int),
{
    let ghost la = a.subrange(alo, ahi);
    let ghost lb = b.subrange(blo, bhi);
    let ghost n = ahi - alo;
    let ghost m = bhi - blo;
    let ghost total = path_matches(nodes@, last as int);
    let mut rev: Vec<(usize, usize)> = Vec::new();
    let mut cur: usize = last;
    loop
        invariant_except_break
            forall|k: int|
                0 <= k < rev@.len() ==> (#[trigger] rev@[k]).0 >= nodes@[cur as int].x1 && rev@[k].1
                    >= nodes@[cur as int].y1,
            rev@.len() + path_matches(nodes@, cur as int) == total,
        invariant
            0 <= alo <= ahi <= a.len(),
            0 <= blo <= bhi <= b.len(),
            la == a.subrange(alo, ahi),
            lb == b.subrange(blo, bhi),
            n == ahi - alo,
            m == bhi - blo,
            cur < nodes@.len(),
            nodes_ok(la, lb, nodes@),
            falling_pairs(a, b, alo, blo, n, m, rev@),
        ensures
            falling_pairs(a, b, alo, blo, n, m, rev@),
            rev@.len() == total,
        decreases cur,
    {
        let mut x: usize = nodes[cur].x1;
        let mut y: usize = nodes[cur].y1;
        let x0: usize = nodes[cur].x0;
        let ghost diag: int = nodes@[cur as int].diagonal();
        let ghost before: int = rev@.len() as int;
        assert(node_ok(la, lb, nodes@, cur as int));
        while x > x0
            invariant
                0 <= alo <= ahi <= a.len(),
                0 <= blo <= bhi <= b.len(),
                la == a.subrange(alo, ahi),
                lb == b.subrange(blo, bhi),
                n == ahi - alo,
                m == bhi - blo,
                x0 <= x <= nodes@[cur as int].x1,
                x0 == nodes@[cur as int].x0,
                diag == nodes@[cur as int].diagonal(),
                x - y == diag,
                cur < nodes@.len(),
                node_ok(la, lb, nodes@, cur as int),
                falling_pairs(a, b, alo, blo, n, m, rev@),
                forall|k: int| 0 <= k < rev@.len() ==> (#[trigger] rev@[k]).0 >= x && rev@[k].1 >= y,
                rev@.len() == before + (nodes@[cur as int].x1 - x),
            decreases x,
        {
            proof {
                assert(cell_matches(la, lb, x - 1, x - 1 - diag));
                assert(la[x - 1] == a[alo + (x - 1)]);
                assert(lb[x - 1 - diag] == b[blo + (x - 1 - diag)]);
            }
            x -= 1;
            y -= 1;
            proof {
                let old_rev = rev@;
                let new_rev = rev@.push((x, y));
                assert forall|k: int| 0 <= k < new_rev.len() implies (#[trigger] new_rev[k]).0 < n
                    && new_rev[k].1 < m && a[alo + new_rev[k].0] == b[blo + new_rev[k].1] by {
                    if k < old_rev.len() {
                        assert(new_rev[k] == old_rev[k]);
                    }
                }
                assert forall|k: int, l: int| 0 <= k < l < new_rev.len() implies (#[trigger] new_rev[l]).0 < (
                #[trigger] new_rev[k]).0 && new_rev[l].1 < new_rev[k].1 by {
                    assert(new_rev[k] == old_rev[k]);
                    if l < old_rev.len() {
                        assert(new_rev[l] == old_rev[l]);
                    }
                }
                assert forall|k: int| 0 <= k < new_rev.len() implies (#[trigger] new_rev[k]).0 >= x
                    && new_rev[k].1 >= y by {
                    if k < old_rev.len() {
                        assert(new_rev[k] == old_rev[k]);
                    }
                }
            }
            rev.push((x, y));
        }
        match nodes[cur].parent {
            Some(p) => {
                assert(node_ok(la, lb, nodes@, p as int));
                cur = p;
            },
            None => {
                break ;
            },
        }
    }
    rev
}

/// Adds to `ms` the pairs that a shortest path through the box
/// `[alo, ahi) x [blo, bhi)` keeps: as many as a longest common
/// subsequence of the two sides of the box has elements.
pub fn myers_box(
    a: &Vec<usize>,
    b: &Vec<usize>,
    alo: usize,
    ahi: usize,
    blo: usize,
    bhi: usize,
    ms: &mut Vec<(usize, usize)>,
)
    requires
        box_pre(a@, b@, old(ms)@, alo as int, ahi as int, blo as int, bhi as int),
    ensures
        box_post(a@, b@, old(ms)@, final(ms)@, alo as int, ahi as int, blo as int, bhi as int),
        final(ms)@.len() - old(ms)@.len() == lcs_len(
            a@.subrange(alo as int, ahi as int),
            b@.subrange(blo as int, bhi as int),
            0,
            0,
        ),
        box_maximal(a@, b@, final(ms)@, old(ms)@.len() as int, alo as int, ahi as int, blo as int, bhi as int),
{
    let n: usize = ahi - alo;
    let m: usize = bhi - blo;
    let ghost la = a@.subrange(alo as int, ahi as int);
    let ghost lb = b@.subrange(blo as int, bhi as int);
    proof {
        lemma_box_post_unchanged(a@, b@, ms@, alo as int, ahi as int, blo as int, bhi as int);
        lemma_bounded_by_weaken(ms@, alo as int, blo as int, ahi as int, bhi as int);
    }
    let (nodes, last) = search(a, b, alo, ahi, blo, bhi);
    let rev = collect_pairs(
        &nodes,
        last,
        Ghost(a@),
        Ghost(b@),
        Ghost(alo as int),
        Ghost(ahi as int),
        Ghost(blo as int),
        Ghost(bhi as int),
    );
    proof {
        assert(node_ok(la, lb, nodes@, last as int));
        lemma_pre_is_len(la, lb);
        assert(rev@.len() == lcs_len(la, lb, 0, 0));
    }
    // Hand the pairs over in rising order.
    let mut t: usize = rev.len();
    while t > 0
        invariant
            n == ahi - alo,
            m == bhi - blo,
            box_pre(a@, b@, old(ms)@, alo as int, ahi as int, blo as int, bhi as int),
            t <= rev@.len(),
            falling_pairs(a@, b@, alo as int, blo as int, n as int, m as int, rev@),
            is_alignment(a@, b@, ms@),
            extends_within(old(ms)@, ms@, alo as int, ahi as int, blo as int, bhi as int),
            bounded_by(ms@, ahi as int, bhi as int),
            t > 0 ==> bounded_by(ms@, alo + rev@[t - 1].0, blo + rev@[t - 1].1),
            ms@.len() == old(ms)@.len() + (rev@.len() - t),
        decreases t,
    {
        t -= 1;
        let (rx, ry) = rev[t];
        let ghost before = ms@;
        push_match(a, b, ms, alo + rx, blo + ry);
        proof {
            assert(ms@.subrange(0, old(ms)@.len() as int) =~= old(ms)@) by {
                assert forall|k: int| 0 <= k < old(ms)@.len() implies ms@[k] == old(ms)@[k] by {
                    assert(before.subrange(0, old(ms)@.len() as int)[k] == before[k]);
                }
            }
            assert forall|k: int| old(ms)@.len() <= k < ms@.len() implies alo <= (#[trigger] ms@[k]).0 < ahi
                && blo <= ms@[k].1 < bhi by {
                if k < before.len() {
                    assert(ms@[k] == before[k]);
                }
            }
            lemma_bounded_by_weaken(ms@, alo + rx + 1, blo + ry + 1, ahi as int, bhi as int);
            if t > 0 {
                assert(rev@[t as int].0 < rev@[t - 1].0);
                lemma_bounded_by_weaken(
                    ms@,
                    alo + rx + 1,
                    blo + ry + 1,
                    alo + rev@[t - 1].0,
                    blo + rev@[t - 1].1,
                );
            }
        }
    }
    proof {
        lemma_longest_is_maximal(a@, b@, old(ms)@, ms@, alo as int, ahi as int, blo as int, bhi as int);
    }
}

} // verus!
