//! Two small algorithms on vectors: insertion into a sorted vector, and
//! reachability in a directed graph that is given as a list of edges.

use vstd::prelude::*;

verus! {

/// The elements of `s` ascend.
pub open spec fn sorted(s: Seq<i32>) -> bool {
    forall|i: int, j: int| 0 <= i <= j < s.len() ==> s[i] <= s[j]
}

/// The place where `n` goes into `s`: behind the leading elements that are not
/// greater than `n`, in front of the first one that is.
pub open spec fn is_insort_point(s: Seq<i32>, n: i32, at: int) -> bool {
    &&& 0 <= at <= s.len()
    &&& forall|j: int| 0 <= j < at ==> s[j] <= n
    &&& at < s.len() ==> s[at] > n
}

/// The place where `n` goes into `s`, counted from the front: the number of
/// leading elements that are not greater than `n`.
pub open spec fn insort_point(s: Seq<i32>, n: i32) -> int
    decreases s.len(),
{
    if s.len() == 0 || s[0] > n {
        0
    } else {
        1 + insort_point(s.drop_first(), n)
    }
}

/// Counting the leading elements that are not greater than `n` gives the place
/// where `n` goes.
pub proof fn lemma_insort_point(s: Seq<i32>, n: i32)
    ensures
        is_insort_point(s, n, insort_point(s, n)),
    decreases s.len(),
{
    if s.len() != 0 && s[0] <= n {
        let rest = s.drop_first();
        lemma_insort_point(rest, n);
        let at = insort_point(rest, n);
        assert forall|j: int| 0 <= j < at + 1 implies s[j] <= n by {
            if j > 0 {
                assert(rest[j - 1] == s[j]);
            }
        }
        if at + 1 < s.len() {
            assert(rest[at] == s[at + 1]);
        }
    }
}

/// There is one such place only.
pub proof fn lemma_insort_point_unique(s: Seq<i32>, n: i32, a: int, b: int)
    requires
        is_insort_point(s, n, a),
        is_insort_point(s, n, b),
    ensures
        a == b,
{
    if a < b {
        assert(s[a] <= n);
    }
    if b < a {
        assert(s[b] <= n);
    }
}

/// Putting `n` at its place into a sorted sequence leaves it sorted.
pub proof fn lemma_insort_keeps_sorted(s: Seq<i32>, n: i32, at: int)
    requires
        sorted(s),
        is_insort_point(s, n, at),
    ensures
        sorted(s.insert(at, n)),
{
    let t = s.insert(at, n);
    assert forall|i: int, j: int| 0 <= i <= j < t.len() implies t[i] <= t[j] by {
        if j < at {
            assert(t[i] == s[i] && t[j] == s[j]);
        } else if j == at {
            if i < at {
                assert(t[i] == s[i]);
            }
        } else {
            assert(t[j] == s[j - 1]);
            if i < at {
                assert(t[i] == s[i]);
            } else if i == at {
                assert(s[at] <= s[j - 1]);
            } else {
                assert(t[i] == s[i - 1]);
            }
        }
    }
}

/// Inserts `n` into `v` behind the leading elements that are not greater than
/// `n`. A sorted vector stays sorted.
pub fn insort(v: &mut Vec<i32>, n: i32)
    ensures
        final(v)@ == old(v)@.insert(insort_point(old(v)@, n), n),
        is_insort_point(old(v)@, n, insort_point(old(v)@, n)),
        sorted(old(v)@) ==> sorted(final(v)@),
{
    let mut at: usize = 0;
    while at < v.len() && v[at] <= n
        invariant
            at <= v@.len(),
            v@ == old(v)@,
            forall|j: int| 0 <= j < at ==> v@[j] <= n,
        decreases v@.len() - at,
    {
        at += 1;
    }
    proof {
        assert(is_insort_point(v@, n, at as int));
        lemma_insort_point(v@, n);
        lemma_insort_point_unique(v@, n, at as int, insort_point(v@, n));
        if sorted(v@) {
            lemma_insort_keeps_sorted(v@, n, at as int);
        }
    }
    v.insert(at, n);
}

/// The nodes of `path` are joined by edges of `edges`, each to the next.
pub open spec fn is_path(edges: Seq<(usize, usize)>, path: Seq<usize>) -> bool {
    &&& path.len() >= 1
    &&& forall|i: int| 0 <= i < path.len() - 1 ==> edges.contains((#[trigger] path[i], path[i + 1]))
}

/// There is a path from `src` to `dst` along the edges, each of which leads from
/// its first node to its second. A node reaches itself by the path without edges.
pub open spec fn reachable(edges: Seq<(usize, usize)>, src: usize, dst: usize) -> bool {
    exists|path: Seq<usize>| #[trigger]
        is_path(edges, path) && path[0] == src && path.last() == dst
}

/// Number of `true` entries.
pub open spec fn count_set(flags: Seq<bool>) -> nat
    decreases flags.len(),
{
    if flags.len() == 0 {
        0
    } else {
        count_set(flags.drop_last()) + if flags.last() {
            1nat
        } else {
            0nat
        }
    }
}

/// No more entries are `true` than there are entries.
pub proof fn lemma_count_set_bounded(flags: Seq<bool>)
    ensures
        count_set(flags) <= flags.len(),
    decreases flags.len(),
{
    if flags.len() > 0 {
        lemma_count_set_bounded(flags.drop_last());
    }
}

/// Setting an entry that was `false` raises the count by one.
pub proof fn lemma_count_set_update(flags: Seq<bool>, i: int)
    requires
        0 <= i < flags.len(),
        !flags[i],
    ensures
        count_set(flags.update(i, true)) == count_set(flags) + 1,
    decreases flags.len(),
{
    let after = flags.update(i, true);
    if i == flags.len() - 1 {
        assert(after.drop_last() =~= flags.drop_last());
    } else {
        lemma_count_set_update(flags.drop_last(), i);
        assert(after.drop_last() =~= flags.drop_last().update(i, true));
    }
}

/// From the end of a path one edge leads on to a longer path.
pub proof fn lemma_reachable_step(edges: Seq<(usize, usize)>, src: usize, via: usize, dst: usize)
    requires
        reachable(edges, src, via),
        edges.contains((via, dst)),
    ensures
        reachable(edges, src, dst),
{
    let path = choose|path: Seq<usize>| #[trigger]
        is_path(edges, path) && path[0] == src && path.last() == via;
    let longer = path.push(dst);
    assert forall|i: int| 0 <= i < longer.len() - 1 implies edges.contains(
        (#[trigger] longer[i], longer[i + 1]),
    ) by {
        if i < path.len() - 1 {
            assert(edges.contains((path[i], path[i + 1])));
        }
    }
    assert(is_path(edges, longer) && longer[0] == src && longer.last() == dst);
}

/// Every node reaches itself.
pub proof fn lemma_reachable_self(edges: Seq<(usize, usize)>, node: usize)
    ensures
        reachable(edges, node, node),
{
    let path = seq![node];
    assert(is_path(edges, path) && path[0] == node && path.last() == node);
}

/// A set of nodes that holds the first node of a path, and with the first node of
/// each edge its second, holds every node of the path.
pub proof fn lemma_closed_set_holds_path(
    edges: Seq<(usize, usize)>,
    nodes: Seq<usize>,
    path: Seq<usize>,
    k: int,
)
    requires
        is_path(edges, path),
        nodes.contains(path[0]),
        forall|e: int|
            0 <= e < edges.len() && nodes.contains((#[trigger] edges[e]).0) ==> nodes.contains(
                edges[e].1,
            ),
        0 <= k < path.len(),
    ensures
        nodes.contains(path[k]),
    decreases k,
{
    if k > 0 {
        lemma_closed_set_holds_path(edges, nodes, path, k - 1);
        assert(edges.contains((path[k - 1], path[k - 1 + 1])));
        let e = choose|e: int| 0 <= e < edges.len() && edges[e] == (path[k - 1], path[k]);
        assert(nodes.contains(edges[e].0));
    }
}

/// Whether `nodes` holds `node`.
fn holds(nodes: &Vec<usize>, node: usize) -> (found: bool)
    ensures
        found == nodes@.contains(node),
{
    let mut i: usize = 0;
    while i < nodes.len()
        invariant
            i <= nodes@.len(),
            forall|j: int| 0 <= j < i ==> nodes@[j] != node,
        decreases nodes@.len() - i,
    {
        if nodes[i] == node {
            return true;
        }
        i += 1;
    }
    false
}

/// Every node of `nodes` can be reached from `src`.
pub open spec fn all_reachable(edges: Seq<(usize, usize)>, src: usize, nodes: Seq<usize>) -> bool {
    forall|j: int| 0 <= j < nodes.len() ==> reachable(edges, src, #[trigger] nodes[j])
}

/// The second node of every edge that is marked in `used` is in `nodes`.
pub open spec fn marked_lead_inside(
    edges: Seq<(usize, usize)>,
    used: Seq<bool>,
    nodes: Seq<usize>,
) -> bool {
    forall|e: int| 0 <= e < edges.len() && #[trigger] used[e] ==> nodes.contains(edges[e].1)
}

/// Each of the first `n` edges that starts in `nodes` is marked in `used`.
pub open spec fn leaving_are_marked(
    edges: Seq<(usize, usize)>,
    used: Seq<bool>,
    nodes: Seq<usize>,
    n: int,
) -> bool {
    forall|e: int| 0 <= e < n && nodes.contains((#[trigger] edges[e]).0) ==> used[e]
}

/// A sequence keeps what it holds when it grows at its end.
pub proof fn lemma_push_keeps(nodes: Seq<usize>, node: usize)
    ensures
        forall|v: usize| nodes.contains(v) ==> #[trigger] nodes.push(node).contains(v),
        nodes.push(node).contains(node),
{
    let longer = nodes.push(node);
    assert forall|v: usize| nodes.contains(v) implies #[trigger] longer.contains(v) by {
        let j = choose|j: int| 0 <= j < nodes.len() && nodes[j] == v;
        assert(longer[j] == v);
    }
    assert(longer[longer.len() - 1] == node);
}

/// Follows edge `e` where it starts in a node that was reached and has not been
/// followed before; says whether it did.
fn follow(
    edges: &[(usize, usize)],
    Ghost(src): Ghost<usize>,
    e: usize,
    reached: &mut Vec<usize>,
    used: &mut Vec<bool>,
) -> (followed: bool)
    requires
        e < edges@.len(),
        old(used)@.len() == edges@.len(),
        all_reachable(edges@, src, old(reached)@),
        marked_lead_inside(edges@, old(used)@, old(reached)@),
    ensures
        final(used)@.len() == edges@.len(),
        all_reachable(edges@, src, final(reached)@),
        marked_lead_inside(edges@, final(used)@, final(reached)@),
        forall|v: usize| old(reached)@.contains(v) ==> #[trigger] final(reached)@.contains(v),
        forall|k: int| 0 <= k < edges@.len() && old(used)@[k] ==> #[trigger] final(used)@[k],
        followed ==> count_set(final(used)@) == count_set(old(used)@) + 1,
        !followed ==> final(used)@ == old(used)@ && final(reached)@ == old(reached)@,
        final(reached)@.contains(edges@[e as int].0) ==> final(used)@[e as int],
{
    let (from, to) = edges[e];
    if !used[e] && holds(reached, from) {
        proof {
            lemma_count_set_update(used@, e as int);
            assert(edges@.contains((from, to)));
            let j = choose|j: int| 0 <= j < reached@.len() && reached@[j] == from;
            assert(reachable(edges@, src, reached@[j]));
            lemma_reachable_step(edges@, src, from, to);
        }
        used.set(e, true);
        if !holds(reached, to) {
            proof {
                lemma_push_keeps(reached@, to);
            }
            reached.push(to);
        }
        true
    } else {
        false
    }
}

/// Whether the directed graph with the edges `edges`, each from its first node
/// to its second, has a path from `src` to `dst`. Nodes are named by numbers, and
/// two nodes are the same where their numbers are.
pub fn connected(edges: &[(usize, usize)], src: usize, dst: usize) -> (yes: bool)
    ensures
        yes == reachable(edges@, src, dst),
{
    let mut reached: Vec<usize> = Vec::new();
    reached.push(src);
    let mut used: Vec<bool> = Vec::new();
    while used.len() < edges.len()
        invariant
            used@.len() <= edges@.len(),
            forall|j: int| 0 <= j < used@.len() ==> !used@[j],
            count_set(used@) == 0,
        decreases edges@.len() - used@.len(),
    {
        proof {
            assert(used@.push(false).drop_last() =~= used@);
        }
        used.push(false);
    }
    proof {
        lemma_reachable_self(edges@, src);
        assert(reached@[0] == src);
    }
    let mut taken: usize = 0;
    let mut changed: bool = true;
    while changed
        invariant
            used@.len() == edges@.len(),
            taken == count_set(used@),
            reached@.contains(src),
            all_reachable(edges@, src, reached@),
            marked_lead_inside(edges@, used@, reached@),
            !changed ==> leaving_are_marked(edges@, used@, reached@, edges@.len() as int),
        decreases
                edges@.len() - taken + if changed {
                    1int
                } else {
                    0int
                },
    {
        changed = false;
        let ghost before = taken;
        let mut e: usize = 0;
        while e < edges.len()
            invariant
                e <= edges@.len(),
                used@.len() == edges@.len(),
                taken == count_set(used@),
                before <= taken,
                changed <==> before < taken,
                reached@.contains(src),
                all_reachable(edges@, src, reached@),
                marked_lead_inside(edges@, used@, reached@),
                !changed ==> leaving_are_marked(edges@, used@, reached@, e as int),
            decreases edges@.len() - e,
        {
            let followed = follow(edges, Ghost(src), e, &mut reached, &mut used);
            proof {
                lemma_count_set_bounded(used@);
            }
            if followed {
                taken += 1;
                changed = true;
            }
            e += 1;
        }
        proof {
            lemma_count_set_bounded(used@);
        }
    }
    let yes = holds(&reached, dst);
    proof {
        if yes {
            let j = choose|j: int| 0 <= j < reached@.len() && reached@[j] == dst;
            assert(reachable(edges@, src, reached@[j]));
        }
        if reachable(edges@, src, dst) {
            let path = choose|path: Seq<usize>| #[trigger]
                is_path(edges@, path) && path[0] == src && path.last() == dst;
            assert forall|e: int|
                0 <= e < edges@.len() && reached@.contains(
                    (#[trigger] edges@[e]).0,
                ) implies reached@.contains(edges@[e].1) by {
                assert(used@[e]);
            }
            lemma_closed_set_holds_path(edges@, reached@, path, path.len() - 1);
        }
    }
    yes
}

} // verus!
