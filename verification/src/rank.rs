//! Topology for ranking: hop distances over the service graph.

use vstd::prelude::*;
use crate::text::str_eq;

verus! {

/// The graph's edges as plain values.
pub open spec fn edge_views(edges: Seq<(String, String)>) -> Seq<(Seq<char>, Seq<char>)> {
    Seq::new(edges.len(), |i: int| (edges[i].0@, edges[i].1@))
}

/// `u` and `v` share an edge (the graph is undirected).
pub open spec fn adjacent(edges: Seq<(Seq<char>, Seq<char>)>, u: Seq<char>, v: Seq<char>) -> bool {
    exists|i: int|
        0 <= i < edges.len() && ((#[trigger] edges[i].0 == u && edges[i].1 == v) || (edges[i].0 == v
            && edges[i].1 == u))
}

/// `v` is at most `k` hops from `focus`.
pub open spec fn within(edges: Seq<(Seq<char>, Seq<char>)>, focus: Seq<char>, v: Seq<char>, k: nat) -> bool
    decreases k,
{
    if k == 0 {
        v == focus
    } else {
        within(edges, focus, v, (k - 1) as nat) || exists|u: Seq<char>|
            within(edges, focus, u, (k - 1) as nat) && #[trigger] adjacent(edges, u, v)
    }
}

/// `v` is exactly `d` hops from `focus`: within `d`, not within `d - 1`.
pub open spec fn hops(edges: Seq<(Seq<char>, Seq<char>)>, focus: Seq<char>, v: Seq<char>, d: nat) -> bool {
    within(edges, focus, v, d) && (d == 0 || !within(edges, focus, v, (d - 1) as nat))
}

proof fn lemma_within_step(e: Seq<(Seq<char>, Seq<char>)>, focus: Seq<char>, u: Seq<char>, v: Seq<char>, k: nat)
    requires
        within(e, focus, u, k),
        adjacent(e, u, v),
    ensures
        within(e, focus, v, k + 1),
{
    let j = ((k + 1) - 1) as nat;
    assert(j == k);
    assert(within(e, focus, u, j));
}

proof fn lemma_within_unfold(e: Seq<(Seq<char>, Seq<char>)>, focus: Seq<char>, v: Seq<char>, k: nat)
    requires
        within(e, focus, v, k + 1),
        !within(e, focus, v, k),
    ensures
        exists|u: Seq<char>| #[trigger] within(e, focus, u, k) && adjacent(e, u, v),
{
    let j = ((k + 1) - 1) as nat;
    assert(j == k);
    let u = choose|u: Seq<char>| within(e, focus, u, j) && #[trigger] adjacent(e, u, v);
    assert(within(e, focus, u, k) && adjacent(e, u, v));
}

proof fn lemma_within_mono(edges: Seq<(Seq<char>, Seq<char>)>, focus: Seq<char>, v: Seq<char>, j: nat, k: nat)
    requires
        within(edges, focus, v, j),
        j <= k,
    ensures
        within(edges, focus, v, k),
    decreases k - j,
{
    if j < k {
        lemma_within_mono(edges, focus, v, j, (k - 1) as nat);
    }
}

/// Every vertex name the graph mentions, the focus first.
pub open spec fn vertices(edges: Seq<(Seq<char>, Seq<char>)>, focus: Seq<char>) -> Seq<Seq<char>> {
    seq![focus] + Seq::new(edges.len(), |i: int| edges[i].0) + Seq::new(edges.len(), |i: int| edges[i].1)
}

pub open spec fn names(found: Seq<(String, usize)>) -> Seq<Seq<char>> {
    Seq::new(found.len(), |i: int| found[i].0@)
}

pub(crate) fn position(found: &Vec<(String, usize)>, w: &str) -> (r: Option<usize>)
    ensures
        match r {
            Some(i) => i < found.len() && found@[i as int].0@ == w@,
            None => forall|i: int| 0 <= i < found.len() ==> found@[i].0@ != w@,
        },
{
    let mut i: usize = 0;
    while i < found.len()
        invariant
            i <= found.len(),
            forall|j: int| 0 <= j < i ==> found@[j].0@ != w@,
        decreases found.len() - i,
    {
        if str_eq(found[i].0.as_str(), w) {
            return Some(i);
        }
        i = i + 1;
    }
    None
}

/// The search state after layer `k`: distinct names, each at its exact hop
/// distance (at most `k`), every vertex within `k` hops found, every name
/// a vertex of the graph.
pub open spec fn layered(
    e: Seq<(Seq<char>, Seq<char>)>,
    focus: Seq<char>,
    found: Seq<(String, usize)>,
    k: nat,
) -> bool {
    &&& names(found).no_duplicates()
    &&& forall|i: int| 0 <= i < found.len() ==> #[trigger] found[i].1 <= k && hops(e, focus, found[i].0@, found[i].1 as nat)
    &&& forall|v: Seq<char>| #[trigger] within(e, focus, v, k) ==> names(found).contains(v)
    &&& forall|i: int| 0 <= i < found.len() ==> vertices(e, focus).contains(#[trigger] found[i].0@)
}

/// Hop distances from `focus` over the undirected graph of `edges`: each
/// vertex reachable from the focus, once, with the fewest hops that reach
/// it (the focus at 0).
pub fn hop_distances(focus: &str, edges: &Vec<(String, String)>) -> (out: Vec<(String, usize)>)
    ensures
        names(out@).no_duplicates(),
        forall|i: int| 0 <= i < out.len() ==> hops(edge_views(edges@), focus@, #[trigger] out@[i].0@, out@[i].1 as nat),
        forall|v: Seq<char>, k: nat| #[trigger] within(edge_views(edges@), focus@, v, k) ==> names(out@).contains(v),
{
    let ghost e = edge_views(edges@);
    let ghost vs = vertices(e, focus@);
    let mut found: Vec<(String, usize)> = Vec::new();
    found.push((focus.to_owned(), 0));
    let mut frontier: Vec<String> = Vec::new();
    frontier.push(focus.to_owned());
    let mut k: usize = 0;
    let mut base: usize = 0;
    proof {
        assert(names(found@) =~= seq![focus@]);
        assert(vs[0] == focus@);
        assert forall|v: Seq<char>| #[trigger] within(e, focus@, v, 0) implies names(found@).contains(v) by {
            assert(names(found@)[0] == v);
        }
        assert(frontier@[0]@ == found@[0].0@);
        assert(found@[0].0@ == focus@);
        assert(hops(e, focus@, focus@, 0));
    }
    while frontier.len() > 0
        invariant
            e == edge_views(edges@),
            vs == vertices(e, focus@),
            layered(e, focus@, found@, k as nat),
            base + frontier.len() == found.len(),
            forall|x: int| 0 <= x < frontier.len() ==> #[trigger] frontier@[x]@ == found@[base + x].0@,
            forall|i: int| 0 <= i < found.len() ==> (#[trigger] found@[i].1 == k <==> base <= i),
            found.len() <= vs.len(),
            k <= found.len(),
            frontier.len() > 0 ==> k < found.len(),
        decreases vs.len() - found.len(), frontier.len(),
    {
        let ghost found0 = found@;
        let start_len = found.len();
        proof {
            assert(found@.take(found0.len() as int) =~= found0);
        }
        let mut next: Vec<String> = Vec::new();
        let mut fi: usize = 0;
        while fi < frontier.len()
            invariant
                e == edge_views(edges@),
                vs == vertices(e, focus@),
                k < found0.len(),
                layered(e, focus@, found0, k as nat),
                base + frontier.len() == found0.len(),
                forall|x: int| 0 <= x < frontier.len() ==> #[trigger] frontier@[x]@ == found0[base + x].0@,
                forall|i: int| 0 <= i < found0.len() ==> (#[trigger] found0[i].1 == k <==> base <= i),
                fi <= frontier.len(),
                extends(found@, found0, e, focus@, k as nat),
                next.len() == found.len() - found0.len(),
                forall|x: int| 0 <= x < next.len() ==> #[trigger] next@[x]@ == found@[found0.len() + x].0@,
                forall|x: int, w: Seq<char>|
                    0 <= x < fi && adjacent(e, #[trigger] frontier@[x]@, w) ==> #[trigger] names(found@).contains(w),
            decreases frontier.len() - fi,
        {
            let u = &frontier[fi];
            proof {
                let i = base + fi;
                assert(found0[i].0@ == frontier@[fi as int]@);
                assert(found0[i].1 == k);
                assert(hops(e, focus@, u@, k as nat));
            }
            let mut ei: usize = 0;
            while ei < edges.len()
                invariant
                    e == edge_views(edges@),
                    vs == vertices(e, focus@),
                    k < found0.len(),
                    layered(e, focus@, found0, k as nat),
                    within(e, focus@, u@, k as nat),
                    extends(found@, found0, e, focus@, k as nat),
                    next.len() == found.len() - found0.len(),
                    forall|x: int| 0 <= x < next.len() ==> #[trigger] next@[x]@ == found@[found0.len() + x].0@,
                    forall|x: int, w: Seq<char>|
                        0 <= x < fi && adjacent(e, #[trigger] frontier@[x]@, w) ==> #[trigger] names(found@).contains(w),
                    ei <= edges.len(),
                    forall|j: int| 0 <= j < ei ==> (#[trigger] e[j].0 == u@ ==> names(found@).contains(e[j].1)) && (e[j].1 == u@
                        ==> names(found@).contains(e[j].0)),
                decreases edges.len() - ei,
            {
                proof {
                    assert(e[ei as int] == (edges@[ei as int].0@, edges@[ei as int].1@));
                }
                if str_eq(edges[ei].0.as_str(), u.as_str()) {
                    let w = &edges[ei].1;
                    proof {
                        assert(adjacent(e, u@, w@)) by {
                            assert(e[ei as int].0 == u@ && e[ei as int].1 == w@);
                        }
                        assert(vs[1 + edges.len() + ei] == w@);
                    }
                    add_vertex(&mut found, &mut next, w, k, Ghost(found0), Ghost(e), Ghost(focus@), Ghost(u@));
                }
                if str_eq(edges[ei].1.as_str(), u.as_str()) {
                    let w = &edges[ei].0;
                    proof {
                        assert(adjacent(e, u@, w@)) by {
                            assert(e[ei as int].0 == w@ && e[ei as int].1 == u@);
                        }
                        assert(vs[1 + ei] == w@);
                    }
                    add_vertex(&mut found, &mut next, w, k, Ghost(found0), Ghost(e), Ghost(focus@), Ghost(u@));
                }
                ei = ei + 1;
            }
            proof {
                assert forall|x: int, w: Seq<char>|
                    0 <= x < fi + 1 && adjacent(e, #[trigger] frontier@[x]@, w) implies #[trigger] names(found@).contains(w) by {
                    if x == fi {
                        let j = choose|j: int| 0 <= j < e.len() && ((#[trigger] e[j].0 == u@ && e[j].1 == w) || (e[j].0 == w && e[j].1 == u@));
                    }
                }
            }
            fi = fi + 1;
        }
        proof {
            lemma_next_layer(e, focus@, found0, found@, k as nat, frontier@, base as int);
            lemma_bounded(e, focus@, found@, vs);
        }
        frontier = next;
        k = k + 1;
        base = start_len;
        proof {
            assert forall|i: int| 0 <= i < found.len() implies (#[trigger] found@[i].1 == k <==> base <= i) by {
                if i < found0.len() {
                    assert(found@.take(found0.len() as int)[i] == found0[i]);
                    assert(found0[i].1 <= k - 1);
                }
            }
        }
    }
    proof {
        assert forall|v: Seq<char>, m: nat| #[trigger] within(e, focus@, v, m) implies names(found@).contains(v) by {
            lemma_beyond(e, focus@, found@, k as nat, v, m);
        }
    }
    found
}

/// `found` is `found0` followed by vertices newly found at `k + 1` hops,
/// names still distinct and all vertices of the graph.
pub open spec fn extends(
    found: Seq<(String, usize)>,
    found0: Seq<(String, usize)>,
    e: Seq<(Seq<char>, Seq<char>)>,
    focus: Seq<char>,
    k: nat,
) -> bool {
    &&& found.len() >= found0.len()
    &&& found.take(found0.len() as int) == found0
    &&& names(found).no_duplicates()
    &&& forall|i: int|
        found0.len() <= i < found.len() ==> #[trigger] found[i].1 == k + 1 && hops(e, focus, found[i].0@, k + 1)
    &&& forall|i: int| 0 <= i < found.len() ==> vertices(e, focus).contains(#[trigger] found[i].0@)
}

/// Records `w`, a neighbour of `u` (which is `k` hops out), at `k + 1`
/// hops unless it is already found.
fn add_vertex(
    found: &mut Vec<(String, usize)>,
    next: &mut Vec<String>,
    w: &String,
    k: usize,
    Ghost(found0): Ghost<Seq<(String, usize)>>,
    Ghost(e): Ghost<Seq<(Seq<char>, Seq<char>)>>,
    Ghost(focus): Ghost<Seq<char>>,
    Ghost(u): Ghost<Seq<char>>,
)
    requires
        k < found0.len(),
        layered(e, focus, found0, k as nat),
        within(e, focus, u, k as nat),
        adjacent(e, u, w@),
        vertices(e, focus).contains(w@),
        extends(old(found)@, found0, e, focus, k as nat),
        old(next).len() == old(found).len() - found0.len(),
        forall|x: int| 0 <= x < old(next).len() ==> #[trigger] old(next)@[x]@ == old(found)@[found0.len() + x].0@,
    ensures
        extends(final(found)@, found0, e, focus, k as nat),
        final(next).len() == final(found).len() - found0.len(),
        forall|x: int| 0 <= x < final(next).len() ==> #[trigger] final(next)@[x]@ == final(found)@[found0.len() + x].0@,
        names(final(found)@).contains(w@),
        forall|v: Seq<char>| names(old(found)@).contains(v) ==> names(final(found)@).contains(v),
{
    match position(found, w.as_str()) {
        Some(i) => {
            proof {
                assert(names(found@)[i as int] == w@);
            }
        },
        None => {
            let ghost f1 = found@;
            proof {
                assert(!names(f1).contains(w@)) by {
                    if names(f1).contains(w@) {
                        let i = choose|i: int| 0 <= i < names(f1).len() && names(f1)[i] == w@;
                        assert(f1[i].0@ == w@);
                    }
                }
                // Not within k hops: everything within k hops was already found.
                if within(e, focus, w@, k as nat) {
                    assert(names(found0).contains(w@));
                    let i = choose|i: int| 0 <= i < names(found0).len() && names(found0)[i] == w@;
                    assert(f1.take(found0.len() as int)[i] == found0[i]);
                    assert(names(f1)[i] == w@);
                }
                lemma_within_step(e, focus, u, w@, k as nat);
            }
            found.push((w.clone(), k + 1));
            next.push(w.clone());
            proof {
                let f2 = found@;
                assert(f2.take(found0.len() as int) =~= f1.take(found0.len() as int));
                assert(names(f2) =~= names(f1).push(w@));
                assert forall|a: int, b: int| 0 <= a < b < names(f2).len() implies names(f2)[a] != names(f2)[b] by {
                    if b == f1.len() {
                        assert(names(f2)[a] == names(f1)[a]);
                    } else {
                        assert(names(f2)[a] == names(f1)[a] && names(f2)[b] == names(f1)[b]);
                    }
                }
                assert forall|i: int| found0.len() <= i < f2.len() implies #[trigger] f2[i].1 == k + 1 && hops(e, focus, f2[i].0@, (k + 1) as nat) by {
                    if i < f1.len() {
                        assert(f2[i] == f1[i]);
                    }
                }
                assert forall|i: int| 0 <= i < f2.len() implies vertices(e, focus).contains(#[trigger] f2[i].0@) by {
                    if i < f1.len() {
                        assert(f2[i] == f1[i]);
                    }
                }
                assert forall|x: int| 0 <= x < next.len() implies #[trigger] next@[x]@ == f2[found0.len() + x].0@ by {
                    if x < next.len() - 1 {
                        assert(f2[found0.len() + x] == f1[found0.len() + x]);
                    }
                }
                assert(names(f2)[f1.len() as int] == w@);
                assert forall|v: Seq<char>| names(f1).contains(v) implies names(f2).contains(v) by {
                    let i = choose|i: int| 0 <= i < names(f1).len() && names(f1)[i] == v;
                    assert(names(f2)[i] == v);
                }
            }
        },
    }
}

/// After a layer's neighbours are all found, the search state holds at
/// `k + 1`.
proof fn lemma_next_layer(
    e: Seq<(Seq<char>, Seq<char>)>,
    focus: Seq<char>,
    found0: Seq<(String, usize)>,
    found: Seq<(String, usize)>,
    k: nat,
    frontier: Seq<String>,
    base: int,
)
    requires
        layered(e, focus, found0, k),
        extends(found, found0, e, focus, k),
        0 <= base,
        base + frontier.len() == found0.len(),
        forall|x: int| 0 <= x < frontier.len() ==> #[trigger] frontier[x]@ == found0[base + x].0@,
        forall|i: int| 0 <= i < found0.len() ==> (#[trigger] found0[i].1 == k <==> base <= i),
        forall|x: int, w: Seq<char>|
            0 <= x < frontier.len() && adjacent(e, #[trigger] frontier[x]@, w) ==> #[trigger] names(found).contains(w),
    ensures
        layered(e, focus, found, k + 1),
{
    assert forall|v: Seq<char>| names(found0).contains(v) implies names(found).contains(v) by {
        let i = choose|i: int| 0 <= i < names(found0).len() && names(found0)[i] == v;
        assert(found.take(found0.len() as int)[i] == found0[i]);
        assert(names(found)[i] == v);
    }
    assert forall|i: int| 0 <= i < found.len() implies #[trigger] found[i].1 <= k + 1 && hops(e, focus, found[i].0@, found[i].1 as nat) by {
        if i < found0.len() {
            assert(found.take(found0.len() as int)[i] == found0[i]);
        }
    }
    assert forall|v: Seq<char>| #[trigger] within(e, focus, v, k + 1) implies names(found).contains(v) by {
        if within(e, focus, v, k) {
            assert(names(found0).contains(v));
        } else {
            lemma_within_unfold(e, focus, v, k);
            let u = choose|u: Seq<char>| #[trigger] within(e, focus, u, k) && adjacent(e, u, v);
            assert(names(found0).contains(u));
            let i = choose|i: int| 0 <= i < names(found0).len() && names(found0)[i] == u;
            assert(found0[i].0@ == u);
            let d = found0[i].1 as nat;
            if d == k {
                let x = i - base;
                assert(frontier[x]@ == found0[i].0@);
                assert(adjacent(e, frontier[x]@, v));
            } else {
                assert(within(e, focus, u, d));
                lemma_within_step(e, focus, u, v, d);
                lemma_within_mono(e, focus, v, d + 1, k);
            }
        }
    }
}

/// Distinct names drawn from the graph's vertices are no more than them.
proof fn lemma_bounded(
    e: Seq<(Seq<char>, Seq<char>)>,
    focus: Seq<char>,
    found: Seq<(String, usize)>,
    vs: Seq<Seq<char>>,
)
    requires
        vs == vertices(e, focus),
        names(found).no_duplicates(),
        forall|i: int| 0 <= i < found.len() ==> vs.contains(#[trigger] found[i].0@),
    ensures
        found.len() <= vs.len(),
{
    let n = names(found);
    n.unique_seq_to_set();
    assert(n.to_set().subset_of(vs.to_set())) by {
        assert forall|v: Seq<char>| n.to_set().contains(v) implies vs.to_set().contains(v) by {
            let i = choose|i: int| 0 <= i < n.len() && n[i] == v;
            assert(found[i].0@ == v);
        }
    }
    vs.lemma_cardinality_of_set();
    vstd::set_lib::lemma_len_subset(n.to_set(), vs.to_set());
}

/// With no vertex at exactly `k` hops found, nothing lies beyond `k` hops.
proof fn lemma_beyond(
    e: Seq<(Seq<char>, Seq<char>)>,
    focus: Seq<char>,
    found: Seq<(String, usize)>,
    k: nat,
    v: Seq<char>,
    m: nat,
)
    requires
        layered(e, focus, found, k),
        forall|i: int| 0 <= i < found.len() ==> #[trigger] found[i].1 != k,
        within(e, focus, v, m),
    ensures
        within(e, focus, v, k),
    decreases m,
{
    if m <= k {
        lemma_within_mono(e, focus, v, m, k);
    } else if within(e, focus, v, (m - 1) as nat) {
        lemma_beyond(e, focus, found, k, v, (m - 1) as nat);
    } else {
        let p = (m - 1) as nat;
        assert(p + 1 == m);
        lemma_within_unfold(e, focus, v, p);
        let u = choose|u: Seq<char>| #[trigger] within(e, focus, u, p) && adjacent(e, u, v);
        lemma_beyond(e, focus, found, k, u, p);
        assert(names(found).contains(u));
        let i = choose|i: int| 0 <= i < names(found).len() && names(found)[i] == u;
        assert(found[i].0@ == u);
        let d = found[i].1 as nat;
        assert(d < k);
        assert(within(e, focus, u, d));
        lemma_within_step(e, focus, u, v, d);
        lemma_within_mono(e, focus, v, d + 1, k);
    }
}

} // verus!
