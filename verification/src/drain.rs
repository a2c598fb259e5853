//! Simplified Drain (He et al., *Drain: An Online Log Parsing Approach with
//! Fixed Depth Tree*, ICWS 2017).
//!
//! Messages are masked first, then tokenised on whitespace and routed
//! through a fixed-depth tree: an optional routing key (the log level),
//! token count, then the first `depth - 2` tokens (a token containing a
//! digit or already `<*>` routes to the wildcard branch; a node that already
//! has `max_children` children sends new tokens to the wildcard branch). At
//! the leaf, the message is compared to each cluster's template by the
//! number of positions whose tokens are equal (`<*>` never counts as a
//! match); the best cluster (the first of the best, in creation order) at or
//! above the similarity threshold, agreeing in at least two positions unless
//! the message is a single token, absorbs the message and every position
//! that differs becomes `<*>`. Otherwise a new cluster is created.
//!
//! Cluster ids are stable for the life of the tree even as a cluster's
//! template acquires wildcards: ids run 1, 2, ... in creation order.

use vstd::prelude::*;
use crate::text::{chars_of, join, join_seq, str_eq, views};
use crate::config::DrainCfg;

verus! {

/// The wildcard token.
pub open spec fn wildcard() -> Seq<char> {
    "<*>"@
}

/// A cluster of messages sharing a template.
#[derive(Debug)]
pub struct Cluster {
    pub id: u64,
    pub tokens: Vec<String>,
    pub size: u64,
}

impl Cluster {
    /// The template: the tokens joined by single spaces.
    pub fn template(&self) -> (s: String)
        ensures
            s@ == join_seq(views(self.tokens@), " "@),
    {
        join(&self.tokens, " ")
    }
}

pub open spec fn is_ascii_digit(c: char) -> bool {
    48 <= (c as u32) <= 57
}

pub open spec fn has_digit_spec(t: Seq<char>) -> bool {
    exists|i: int| 0 <= i < t.len() && is_ascii_digit(#[trigger] t[i])
}

/// Does the token contain an ASCII digit?
pub fn has_digit(t: &str) -> (r: bool)
    ensures
        r == has_digit_spec(t@),
{
    let cs = chars_of(t);
    let mut i: usize = 0;
    while i < cs.len()
        invariant
            cs@ == t@,
            i <= cs.len(),
            forall|k: int| 0 <= k < i ==> !is_ascii_digit(#[trigger] t@[k]),
        decreases cs.len() - i,
    {
        let c = cs[i] as u32;
        if 48 <= c && c <= 57 {
            assert(is_ascii_digit(t@[i as int]));
            return true;
        }
        i = i + 1;
    }
    false
}

/// Positions below `n` where the template and the message agree on a
/// token that is not the wildcard.
pub open spec fn agree_upto(template: Seq<Seq<char>>, tokens: Seq<Seq<char>>, n: int) -> nat
    decreases n,
{
    if n <= 0 {
        0
    } else {
        agree_upto(template, tokens, n - 1) + if template[n - 1] != wildcard() && template[n - 1]
            == tokens[n - 1] {
            1nat
        } else {
            0nat
        }
    }
}

/// Positions where the template and the message agree on a token that is
/// not the wildcard (pairing positions up to the shorter of the two).
pub open spec fn agreeing(template: Seq<Seq<char>>, tokens: Seq<Seq<char>>) -> nat {
    agree_upto(
        template,
        tokens,
        if template.len() < tokens.len() {
            template.len() as int
        } else {
            tokens.len() as int
        },
    )
}

pub proof fn lemma_agree_upto_bound(template: Seq<Seq<char>>, tokens: Seq<Seq<char>>, n: int)
    ensures
        agree_upto(template, tokens, n) <= if n < 0 { 0 } else { n },
    decreases n,
{
    if n > 0 {
        lemma_agree_upto_bound(template, tokens, n - 1);
    }
}

fn agree_count(template: &Vec<String>, tokens: &Vec<String>) -> (r: u64)
    ensures
        r == agreeing(views(template@), views(tokens@)),
{
    let n = if template.len() < tokens.len() { template.len() } else { tokens.len() };
    let mut i: usize = 0;
    let mut c: u64 = 0;
    while i < n
        invariant
            n <= template.len(),
            n <= tokens.len(),
            i <= n,
            c == agree_upto(views(template@), views(tokens@), i as int),
        decreases n - i,
    {
        proof {
            lemma_agree_upto_bound(views(template@), views(tokens@), i as int);
        }
        if !str_eq(template[i].as_str(), "<*>") && template[i] == tokens[i] {
            c = c + 1;
        }
        proof {
            assert(views(template@)[i as int] == template@[i as int]@);
            assert(views(tokens@)[i as int] == tokens@[i as int]@);
        }
        i = i + 1;
    }
    c
}

/// A cluster whose template has `width` tokens, `same` of them agreeing with
/// the message, absorbs it: the agreeing fraction reaches the threshold and
/// at least two positions agree (one suffices for a one-token message).
pub open spec fn accepts(same: nat, width: nat, threshold_ppm: nat) -> bool {
    &&& width > 0
    &&& same * 1_000_000 >= threshold_ppm * width
    &&& (same >= 2 || width == 1)
}

/// The template after absorbing the message: every position that differs
/// becomes the wildcard.
pub open spec fn generalize(template: Seq<Seq<char>>, tokens: Seq<Seq<char>>) -> Seq<Seq<char>> {
    Seq::new(template.len(), |i: int| if template[i] == tokens[i] { template[i] } else { wildcard() })
}

} // verus!


verus! {

// ------------------------------------------------------------------ the tree

/// What a tree edge is labelled with.
#[derive(Debug)]
enum RouteKey {
    /// The caller's routing key (the log level).
    Key(String),
    /// The message's token count.
    Len(usize),
    /// A leading token, or the wildcard.
    Token(String),
}

/// An edge label as plain values: (class, text, count), the classes being
/// routing key (0), token count (1) and token (2).
spec fn kv(k: RouteKey) -> (int, Seq<char>, nat) {
    match k {
        RouteKey::Key(s) => (0, s@, 0),
        RouteKey::Len(n) => (1, Seq::empty(), n as nat),
        RouteKey::Token(s) => (2, s@, 0),
    }
}

fn same_key(a: &RouteKey, b: &RouteKey) -> (r: bool)
    ensures
        r == (kv(*a) == kv(*b)),
{
    match a {
        RouteKey::Key(x) => match b {
            RouteKey::Key(y) => str_eq(x.as_str(), y.as_str()),
            _ => false,
        },
        RouteKey::Len(x) => match b {
            RouteKey::Len(y) => *x == *y,
            _ => false,
        },
        RouteKey::Token(x) => match b {
            RouteKey::Token(y) => str_eq(x.as_str(), y.as_str()),
            _ => false,
        },
    }
}

/// The token count of the messages routed below an edge's child (-1 above
/// the token-count level).
spec fn edge_width(t: (int, Seq<char>, nat), parent: int) -> int {
    if t.0 == 0 {
        -1
    } else if t.0 == 1 {
        t.2 as int
    } else {
        parent
    }
}

/// The routing key of the messages routed below an edge's child.
spec fn edge_key(t: (int, Seq<char>, nat), parent: Seq<char>) -> Seq<char> {
    if t.0 == 0 {
        t.1
    } else {
        parent
    }
}

struct Node {
    children: Vec<(RouteKey, usize)>,
    clusters: Vec<u64>,
    width: Ghost<int>,
    key: Ghost<Seq<char>>,
}

/// The target of the first edge from position `j` on labelled `t`.
spec fn find_from(ch: Seq<(RouteKey, usize)>, t: (int, Seq<char>, nat), j: int) -> Option<int>
    decreases ch.len() - j,
{
    if j < 0 || j >= ch.len() {
        None
    } else if kv(ch[j].0) == t {
        Some(ch[j].1 as int)
    } else {
        find_from(ch, t, j + 1)
    }
}

proof fn lemma_find_from(ch: Seq<(RouteKey, usize)>, t: (int, Seq<char>, nat), j: int)
    requires
        find_from(ch, t, j) is Some,
    ensures
        exists|x: int|
            0 <= x < ch.len() && kv(#[trigger] ch[x].0) == t && ch[x].1 == find_from(ch, t, j)->0,
    decreases ch.len() - j,
{
    if 0 <= j < ch.len() && kv(ch[j].0) != t {
        lemma_find_from(ch, t, j + 1);
    }
}

proof fn lemma_find_push(ch: Seq<(RouteKey, usize)>, e: (RouteKey, usize), t: (int, Seq<char>, nat), j: int)
    requires
        0 <= j <= ch.len(),
    ensures
        find_from(ch.push(e), t, j) == (if find_from(ch, t, j) is Some {
            find_from(ch, t, j)
        } else if kv(e.0) == t {
            Some(e.1 as int)
        } else {
            None
        }),
    decreases ch.len() - j,
{
    if j < ch.len() {
        assert(ch.push(e)[j] == ch[j]);
        lemma_find_push(ch, e, t, j + 1);
    } else {
        assert(ch.push(e)[j] == e);
        assert(find_from(ch.push(e), t, j + 1) is None);
    }
}

/// A node as plain values: its edges (label, target) and its cluster ids.
pub struct NodeView {
    pub edges: Seq<((int, Seq<char>, nat), usize)>,
    pub clusters: Seq<u64>,
}

spec fn edges_v(ch: Seq<(RouteKey, usize)>) -> Seq<((int, Seq<char>, nat), usize)> {
    Seq::new(ch.len(), |j: int| (kv(ch[j].0), ch[j].1))
}

/// The tree as plain values.
spec fn tree_view(nodes: Seq<Node>) -> Seq<NodeView> {
    Seq::new(nodes.len(), |q: int| NodeView { edges: edges_v(nodes[q].children@), clusters: nodes[q].clusters@ })
}

/// The target of the first edge from position `j` on labelled `t`.
pub open spec fn find_v(ch: Seq<((int, Seq<char>, nat), usize)>, t: (int, Seq<char>, nat), j: int) -> Option<int>
    decreases ch.len() - j,
{
    if j < 0 || j >= ch.len() {
        None
    } else if ch[j].0 == t {
        Some(ch[j].1 as int)
    } else {
        find_v(ch, t, j + 1)
    }
}

proof fn lemma_find_v(ch: Seq<(RouteKey, usize)>, t: (int, Seq<char>, nat), j: int)
    ensures
        find_from(ch, t, j) == find_v(edges_v(ch), t, j),
    decreases ch.len() - j,
{
    if 0 <= j < ch.len() {
        lemma_find_v(ch, t, j + 1);
    }
}

/// `descend` on plain values: the tree and the node reached.
pub open spec fn descend_v(sh: Seq<NodeView>, n: int, t: (int, Seq<char>, nat)) -> (Seq<NodeView>, int) {
    match find_v(sh[n].edges, t, 0) {
        Some(c) => (sh, c),
        None => {
            let c = sh.len() as int;
            (
                sh.update(n, NodeView { edges: sh[n].edges.push((t, c as usize)), clusters: sh[n].clusters }).push(
                    NodeView { edges: Seq::empty(), clusters: Seq::empty() },
                ),
                c,
            )
        },
    }
}

/// The edge a leading token takes at node `n` (see `chosen`), on plain values.
pub open spec fn chosen_v(sh: Seq<NodeView>, max_children: nat, n: int, t: Seq<char>) -> Seq<char> {
    let k = tok_key(t);
    if find_v(sh[n].edges, (2, k, 0), 0) is None && sh[n].edges.len() >= max_children {
        wildcard()
    } else {
        k
    }
}

/// The tree and node after routing leading tokens `i..lead` from node `n`,
/// adding the edges that are missing.
pub open spec fn grow_v(sh: Seq<NodeView>, max_children: nat, n: int, toks: Seq<Seq<char>>, i: nat, lead: nat) -> (
    Seq<NodeView>,
    int,
)
    decreases lead - i,
{
    if i >= lead {
        (sh, n)
    } else {
        let s = descend_v(sh, n, (2, chosen_v(sh, max_children, n, toks[i as int]), 0));
        grow_v(s.0, max_children, s.1, toks, i + 1, lead)
    }
}

/// The child of `nodes[n]` along the edge labelled `t`: the first such edge.
spec fn child(nodes: Seq<Node>, n: int, t: (int, Seq<char>, nat)) -> Option<int> {
    find_from(nodes[n].children@, t, 0)
}

/// One step down the tree from `cur` (None: a node this insertion creates).
spec fn step(nodes: Seq<Node>, cur: Option<int>, t: (int, Seq<char>, nat)) -> Option<int> {
    match cur {
        Some(n) => child(nodes, n, t),
        None => None,
    }
}

/// The routing key of a leading token: the wildcard for a token that is
/// the wildcard or contains a digit.
pub open spec fn tok_key(t: Seq<char>) -> Seq<char> {
    if t == wildcard() || has_digit_spec(t) {
        wildcard()
    } else {
        t
    }
}

/// The edge a leading token takes at `cur`: its key, unless that edge does
/// not exist and the node is full, in which case the wildcard.
spec fn chosen(nodes: Seq<Node>, max_children: nat, cur: Option<int>, t: Seq<char>) -> Seq<char> {
    let k = tok_key(t);
    let count: nat = match cur {
        Some(n) => nodes[n].children@.len(),
        None => 0,
    };
    if step(nodes, cur, (2, k, 0)) is None && count >= max_children {
        wildcard()
    } else {
        k
    }
}

spec fn walk(
    nodes: Seq<Node>,
    max_children: nat,
    cur: Option<int>,
    toks: Seq<Seq<char>>,
    i: nat,
    lead: nat,
) -> Option<int>
    decreases lead - i,
{
    if i >= lead {
        cur
    } else {
        walk(
            nodes,
            max_children,
            step(nodes, cur, (2, chosen(nodes, max_children, cur, toks[i as int]), 0)),
            toks,
            i + 1,
            lead,
        )
    }
}

/// Where a message enters the token levels: below its routing key (the
/// root for the empty key), along its token count.
spec fn start(nodes: Seq<Node>, key: Seq<char>, n: nat) -> Option<int> {
    let top = if key.len() == 0 {
        Some(0int)
    } else {
        child(nodes, 0, (0, key, 0))
    };
    step(nodes, top, (1, Seq::empty(), n))
}

/// How many leading tokens route: `depth - 2`, at most the message length.
pub open spec fn lead_count(depth: usize, n: nat) -> nat {
    let d: nat = if depth >= 2 {
        (depth - 2) as nat
    } else {
        0
    };
    if d < n {
        d
    } else {
        n
    }
}

/// Agreement scores of the candidate clusters with a message.
pub open spec fn scores_of(clusters: Seq<Cluster>, cands: Seq<u64>, toks: Seq<Seq<char>>) -> Seq<
    nat,
> {
    Seq::new(cands.len(), |j: int| agreeing(views(clusters[cands[j] - 1].tokens@), toks))
}

/// The first position of a highest score.
pub open spec fn first_max(s: Seq<nat>) -> int
    decreases s.len(),
{
    if s.len() <= 1 {
        0
    } else {
        let p = first_max(s.drop_last());
        if s.last() > s[p] {
            s.len() - 1
        } else {
            p
        }
    }
}

pub proof fn lemma_first_max(s: Seq<nat>)
    requires
        s.len() >= 1,
    ensures
        0 <= first_max(s) < s.len(),
        forall|j: int| 0 <= j < s.len() ==> #[trigger] s[j] <= s[first_max(s)],
        forall|j: int| 0 <= j < first_max(s) ==> #[trigger] s[j] < s[first_max(s)],
    decreases s.len(),
{
    if s.len() > 1 {
        let t = s.drop_last();
        lemma_first_max(t);
        let p = first_max(t);
        assert(t[p] == s[p]);
        assert forall|j: int| 0 <= j < s.len() implies #[trigger] s[j] <= s[first_max(s)] by {
            if j < s.len() - 1 {
                assert(t[j] == s[j]);
            }
        }
        assert forall|j: int| 0 <= j < first_max(s) implies #[trigger] s[j] < s[first_max(s)] by {
            if j < s.len() - 1 {
                assert(t[j] == s[j]);
            }
        }
    }
}

/// Drain's parse tree and its clusters.
pub struct Drain {
    cfg: DrainCfg,
    nodes: Vec<Node>,
    clusters: Vec<Cluster>,
    /// Messages inserted so far.
    inserted: u64,
    /// The routing key each cluster was created under.
    keys: Ghost<Seq<Seq<char>>>,
}

impl Drain {
    /// The clusters, in creation order: `clusters()[i]` has id `i + 1`.
    pub closed spec fn clusters(self) -> Seq<Cluster> {
        self.clusters@
    }

    /// The routing key each cluster was created under.
    pub closed spec fn keys(self) -> Seq<Seq<char>> {
        self.keys@
    }

    pub closed spec fn inserted(self) -> nat {
        self.inserted as nat
    }

    pub closed spec fn config(self) -> DrainCfg {
        self.cfg
    }

    /// The tree as plain values.
    pub closed spec fn shape(self) -> Seq<NodeView> {
        tree_view(self.nodes@)
    }

    spec fn leaf(self, key: Seq<char>, toks: Seq<Seq<char>>) -> Option<int> {
        walk(
            self.nodes@,
            self.cfg.max_children as nat,
            start(self.nodes@, key, toks.len()),
            toks,
            0,
            lead_count(self.cfg.depth, toks.len()),
        )
    }

    /// The ids of the clusters at the leaf a message routes to, in creation
    /// order (none when the route reaches no existing leaf).
    pub closed spec fn candidates(self, key: Seq<char>, toks: Seq<Seq<char>>) -> Seq<u64> {
        match self.leaf(key, toks) {
            Some(n) => self.nodes@[n].clusters@,
            None => Seq::empty(),
        }
    }

    /// The cluster a message is compared with: the first candidate with the
    /// most agreeing positions.
    pub open spec fn pick(self, key: Seq<char>, toks: Seq<Seq<char>>) -> Option<u64> {
        let c = self.candidates(key, toks);
        if c.len() == 0 {
            None
        } else {
            Some(c[first_max(scores_of(self.clusters(), c, toks))])
        }
    }

    /// Does the picked cluster absorb the message?
    pub open spec fn absorbs(self, key: Seq<char>, toks: Seq<Seq<char>>) -> bool {
        match self.pick(key, toks) {
            Some(id) => accepts(
                agreeing(views(self.clusters()[id - 1].tokens@), toks),
                toks.len(),
                self.config().similarity_threshold_ppm as nat,
            ),
            None => false,
        }
    }

    /// The tree is well formed: edges point forward at nodes, widths and
    /// keys follow the edges, every cluster at a node has the node's width
    /// and key, and ids run 1, 2, ... in creation order.
    pub closed spec fn wf(self) -> bool {
        let nodes = self.nodes@;
        &&& nodes.len() >= 1
        &&& nodes[0].width@ == -1
        &&& nodes[0].key@ == Seq::<char>::empty()
        &&& forall|n: int, j: int|
            0 <= n < nodes.len() && 0 <= j < nodes[n].children@.len() ==> {
                let e = #[trigger] nodes[n].children@[j];
                &&& n < e.1 < nodes.len()
                &&& nodes[e.1 as int].width@ == edge_width(kv(e.0), nodes[n].width@)
                &&& nodes[e.1 as int].key@ == edge_key(kv(e.0), nodes[n].key@)
            }
        &&& forall|n: int, j: int|
            0 <= n < nodes.len() && 0 <= j < nodes[n].clusters@.len() ==> {
                let id = #[trigger] nodes[n].clusters@[j];
                &&& 1 <= id <= self.clusters@.len()
                &&& self.clusters@[id - 1].tokens@.len() == nodes[n].width@
                &&& self.keys@[id - 1] == nodes[n].key@
            }
        &&& forall|i: int| 0 <= i < self.clusters@.len() ==> #[trigger] self.clusters@[i].id == i + 1
        &&& self.keys@.len() == self.clusters@.len()
        &&& self.clusters@.len() <= self.inserted
        &&& forall|i: int|
            0 <= i < self.clusters@.len() ==> #[trigger] self.clusters@[i].size <= self.inserted
    }

    pub fn new(cfg: DrainCfg) -> (d: Drain)
        ensures
            d.wf(),
            d.clusters() == Seq::<Cluster>::empty(),
            d.inserted() == 0,
            d.config() == cfg,
            forall|k: Seq<char>, t: Seq<Seq<char>>| #[trigger] d.candidates(k, t) == Seq::<u64>::empty(),
            d.keys() == Seq::<Seq<char>>::empty(),
            d.shape() == seq![NodeView { edges: Seq::empty(), clusters: Seq::empty() }],
    {
        let mut nodes: Vec<Node> = Vec::new();
        nodes.push(
            Node {
                children: Vec::new(),
                clusters: Vec::new(),
                width: Ghost(-1),
                key: Ghost(Seq::empty()),
            },
        );
        let d = Drain { cfg, nodes, clusters: Vec::new(), inserted: 0, keys: Ghost(Seq::empty()) };
        proof {
            assert forall|k: Seq<char>, t: Seq<Seq<char>>|
                #[trigger] d.candidates(k, t) == Seq::<u64>::empty() by {
                assert(start(d.nodes@, k, t.len()) is None);
                lemma_walk_none(d.nodes@, cfg.max_children as nat, t, 0, lead_count(cfg.depth, t.len()));
            }
            assert(edges_v(d.nodes@[0].children@) =~= Seq::<((int, Seq<char>, nat), usize)>::empty());
            assert(tree_view(d.nodes@) =~= seq![NodeView { edges: Seq::empty(), clusters: Seq::empty() }]);
        }
        d
    }

    /// Number of clusters.
    pub fn len(&self) -> (n: usize)
        ensures
            n == self.clusters().len(),
    {
        self.clusters.len()
    }

    pub fn is_empty(&self) -> (b: bool)
        ensures
            b == (self.clusters().len() == 0),
    {
        self.clusters.len() == 0
    }

    /// The cluster with this id, if there is one.
    pub fn cluster(&self, id: u64) -> (r: Option<&Cluster>)
        requires
            self.wf(),
        ensures
            match r {
                Some(c) => 1 <= id <= self.clusters().len() && *c == self.clusters()[id - 1],
                None => !(1 <= id <= self.clusters().len()),
            },
    {
        if 1 <= id && id <= self.clusters.len() as u64 {
            Some(&self.clusters[(id - 1) as usize])
        } else {
            None
        }
    }

    fn find_child(&self, n: usize, k: &RouteKey) -> (r: Option<usize>)
        requires
            n < self.nodes@.len(),
        ensures
            match r {
                Some(c) => child(self.nodes@, n as int, kv(*k)) == Some(c as int),
                None => child(self.nodes@, n as int, kv(*k)) is None,
            },
    {
        let ch = &self.nodes[n].children;
        let ghost t = kv(*k);
        let mut j: usize = 0;
        while j < ch.len()
            invariant
                ch@ == self.nodes@[n as int].children@,
                j <= ch.len(),
                find_from(ch@, t, j as int) == find_from(ch@, t, 0),
                t == kv(*k),
            decreases ch.len() - j,
        {
            if same_key(&ch[j].0, k) {
                return Some(ch[j].1);
            }
            j = j + 1;
        }
        None
    }

    /// Follows the first edge of `nodes[n]` labelled `k`, or adds such an
    /// edge to a new node.
    fn descend(&mut self, n: usize, k: RouteKey) -> (c: usize)
        requires
            old(self).wf(),
            n < old(self).nodes@.len(),
        ensures
            final(self).wf(),
            final(self).clusters@ == old(self).clusters@,
            final(self).keys@ == old(self).keys@,
            final(self).cfg == old(self).cfg,
            final(self).inserted == old(self).inserted,
            n < c < final(self).nodes@.len(),
            final(self).nodes@[c as int].width@ == edge_width(kv(k), old(self).nodes@[n as int].width@),
            final(self).nodes@[c as int].key@ == edge_key(kv(k), old(self).nodes@[n as int].key@),
            child(old(self).nodes@, n as int, kv(k)) is Some ==> {
                &&& child(old(self).nodes@, n as int, kv(k)) == Some(c as int)
                &&& final(self).nodes@ == old(self).nodes@
            },
            child(old(self).nodes@, n as int, kv(k)) is None ==> {
                &&& final(self).nodes@[c as int].children@.len() == 0
                &&& final(self).nodes@[c as int].clusters@.len() == 0
                &&& c == old(self).nodes@.len()
                &&& final(self).nodes@.len() == old(self).nodes@.len() + 1
                &&& final(self).nodes@[n as int].children@ == old(self).nodes@[n as int].children@.push(
                    final(self).nodes@[n as int].children@.last(),
                )
                &&& kv(final(self).nodes@[n as int].children@.last().0) == kv(k)
            },
            child(final(self).nodes@, n as int, kv(k)) == Some(c as int),
            final(self).nodes@.len() >= old(self).nodes@.len(),
            forall|m: int| 0 <= m < old(self).nodes@.len() && m != n ==> #[trigger] final(self).nodes@[m] == old(self).nodes@[m],
            final(self).nodes@[n as int].clusters@ == old(self).nodes@[n as int].clusters@,
            final(self).nodes@[n as int].width@ == old(self).nodes@[n as int].width@,
            final(self).nodes@[n as int].key@ == old(self).nodes@[n as int].key@,
            (tree_view(final(self).nodes@), c as int) == descend_v(tree_view(old(self).nodes@), n as int, kv(k)),
    {
        let found = self.find_child(n, &k);
        match found {
            Some(c) => {
                proof {
                    let ch = self.nodes@[n as int].children@;
                    lemma_find_from(ch, kv(k), 0);
                    lemma_find_v(ch, kv(k), 0);
                }
                c
            },
            None => {
                let ghost before = self.nodes@;
                let c = self.nodes.len();
                let ghost w = edge_width(kv(k), self.nodes@[n as int].width@);
                let ghost kk = edge_key(kv(k), self.nodes@[n as int].key@);
                self.nodes.push(
                    Node { children: Vec::new(), clusters: Vec::new(), width: Ghost(w), key: Ghost(kk) },
                );
                let ghost mid = self.nodes@;
                let ghost kk2 = kv(k);
                self.nodes[n].children.push((k, c));
                proof {
                    let nodes = self.nodes@;
                    let ch0 = before[n as int].children@;
                    assert(nodes[n as int].children@ == ch0.push(nodes[n as int].children@.last()));
                    lemma_find_push(ch0, nodes[n as int].children@.last(), kk2, 0);
                    lemma_find_v(ch0, kk2, 0);
                    let tv0 = tree_view(before);
                    let dv = descend_v(tv0, n as int, kk2);
                    assert(nodes[n as int].children@.last().1 == c);
                    assert(edges_v(nodes[n as int].children@) =~= edges_v(ch0).push((kk2, c)));
                    assert(dv.0.len() == nodes.len());
                    assert forall|q: int| 0 <= q < nodes.len() implies #[trigger] tree_view(nodes)[q] == dv.0[q] by {
                        if q == n {
                        } else if q == c {
                            assert(edges_v(nodes[q].children@) =~= Seq::<((int, Seq<char>, nat), usize)>::empty());
                            assert(nodes[q].clusters@ =~= Seq::<u64>::empty());
                        } else {
                            assert(nodes[q] == mid[q]);
                            assert(mid[q] == before[q]);
                        }
                    }
                    assert(tree_view(nodes) =~= dv.0);
                    assert(child(nodes, n as int, kk2) == Some(c as int));
                    assert(nodes.len() == before.len() + 1);
                    assert forall|m: int| 0 <= m < nodes.len() && m != n implies #[trigger] nodes[m] == mid[m] by {}
                    assert(nodes[n as int].clusters@ == before[n as int].clusters@);
                    assert(nodes[n as int].width@ == before[n as int].width@);
                    assert(nodes[n as int].key@ == before[n as int].key@);
                    assert forall|m: int, j: int|
                        0 <= m < nodes.len() && 0 <= j < nodes[m].children@.len() implies {
                            let e = #[trigger] nodes[m].children@[j];
                            &&& m < e.1 < nodes.len()
                            &&& nodes[e.1 as int].width@ == edge_width(kv(e.0), nodes[m].width@)
                            &&& nodes[e.1 as int].key@ == edge_key(kv(e.0), nodes[m].key@)
                        } by {
                        if m == n {
                            if j < before[n as int].children@.len() {
                                assert(nodes[m].children@[j] == before[m].children@[j]);
                            }
                        } else if m < before.len() {
                            assert(nodes[m] == before[m]);
                            assert(nodes[m].children@[j] == before[m].children@[j]);
                        }
                        let e = nodes[m].children@[j];
                        if e.1 < before.len() {
                            assert(nodes[e.1 as int] == mid[e.1 as int] || e.1 == n);
                        }
                    }
                    assert forall|m: int, j: int|
                        0 <= m < nodes.len() && 0 <= j < nodes[m].clusters@.len() implies {
                            let id = #[trigger] nodes[m].clusters@[j];
                            &&& 1 <= id <= self.clusters@.len()
                            &&& self.clusters@[id - 1].tokens@.len() == nodes[m].width@
                            &&& self.keys@[id - 1] == nodes[m].key@
                        } by {
                        if m < before.len() {
                            assert(nodes[m].clusters@ == before[m].clusters@);
                            assert(nodes[m].width@ == before[m].width@);
                            assert(nodes[m].key@ == before[m].key@);
                        }
                    }
                }
                c
            },
        }
    }
}

} // verus!

verus! {

/// The first candidate with the most agreeing positions, as a position in
/// `cands`.
fn best_candidate(clusters: &Vec<Cluster>, cands: &Vec<u64>, tokens: &Vec<String>) -> (r: usize)
    requires
        cands.len() >= 1,
        forall|j: int| 0 <= j < cands.len() ==> 1 <= #[trigger] cands@[j] <= clusters.len(),
    ensures
        r == first_max(scores_of(clusters@, cands@, views(tokens@))),
        r < cands.len(),
{
    let ghost sc = scores_of(clusters@, cands@, views(tokens@));
    let mut best: usize = 0;
    let mut best_score: u64 = agree_count(&clusters[(cands[0] - 1) as usize].tokens, tokens);
    let mut i: usize = 1;
    proof {
        assert(sc.subrange(0, 1).len() == 1);
    }
    while i < cands.len()
        invariant
            1 <= i <= cands.len(),
            cands.len() >= 1,
            forall|j: int| 0 <= j < cands.len() ==> 1 <= #[trigger] cands@[j] <= clusters.len(),
            sc == scores_of(clusters@, cands@, views(tokens@)),
            best < i,
            best == first_max(sc.subrange(0, i as int)),
            best_score == sc[best as int],
        decreases cands.len() - i,
    {
        let s = agree_count(&clusters[(cands[i] - 1) as usize].tokens, tokens);
        proof {
            let a = sc.subrange(0, i as int);
            let b = sc.subrange(0, i + 1);
            assert(b.drop_last() =~= a);
            assert(b.last() == sc[i as int]);
            assert(b[best as int] == sc[best as int]);
        }
        if s > best_score {
            best = i;
            best_score = s;
        }
        i = i + 1;
    }
    proof {
        assert(sc.subrange(0, cands.len() as int) =~= sc);
    }
    best
}

/// The template after absorbing the message (see `generalize`).
fn generalized(template: &Vec<String>, tokens: &Vec<String>) -> (r: Vec<String>)
    requires
        template.len() == tokens.len(),
    ensures
        views(r@) == generalize(views(template@), views(tokens@)),
{
    let mut r: Vec<String> = Vec::new();
    let mut i: usize = 0;
    while i < template.len()
        invariant
            i <= template.len(),
            template.len() == tokens.len(),
            r.len() == i,
            forall|j: int|
                0 <= j < i ==> #[trigger] r@[j]@ == generalize(views(template@), views(tokens@))[j],
        decreases template.len() - i,
    {
        if template[i] == tokens[i] {
            r.push(template[i].clone());
        } else {
            r.push("<*>".to_owned());
        }
        i = i + 1;
    }
    proof {
        assert(views(r@) =~= generalize(views(template@), views(tokens@)));
    }
    r
}

} // verus!

verus! {

impl Drain {
    /// Routes a tokenised (already masked) message to a cluster; returns
    /// `(cluster id, created)`.
    pub fn insert(&mut self, tokens: Vec<String>) -> (r: (u64, bool))
        requires
            old(self).wf(),
            old(self).inserted() < u64::MAX,
        ensures
            final(self).wf(),
            insertion(*old(self), *final(self), Seq::empty(), views(tokens@), r),
            old(self).absorbs(Seq::empty(), views(tokens@)) ==> forall|k: Seq<char>, t: Seq<Seq<char>>|
                #[trigger] final(self).candidates(k, t) == old(self).candidates(k, t),
            !old(self).absorbs(Seq::empty(), views(tokens@)) ==> forall|t: Seq<Seq<char>>|
                routes_alike(old(self).config().depth, t, views(tokens@)) ==> #[trigger] final(self).candidates(
                    Seq::empty(),
                    t,
                ) == old(self).candidates(Seq::empty(), t).push(r.0),
            forall|k: Seq<char>, t: Seq<Seq<char>>|
                k != Seq::<char>::empty() ==> #[trigger] final(self).candidates(k, t) == old(self).candidates(k, t),
    {
        proof {
            reveal_strlit("");
            assert(""@ =~= Seq::<char>::empty());
        }
        self.insert_keyed("", tokens)
    }

    /// Like `insert`, with an extra routing key ahead of the token count
    /// (the log level): the key partitions the tree, while similarity is
    /// still measured over message tokens only.
    #[verifier::spinoff_prover]
    #[verifier::rlimit(60)]
    pub fn insert_keyed(&mut self, key: &str, tokens: Vec<String>) -> (r: (u64, bool))
        requires
            old(self).wf(),
            old(self).inserted() < u64::MAX,
        ensures
            final(self).wf(),
            insertion(*old(self), *final(self), key@, views(tokens@), r),
            old(self).absorbs(key@, views(tokens@)) ==> forall|k: Seq<char>, t: Seq<Seq<char>>|
                #[trigger] final(self).candidates(k, t) == old(self).candidates(k, t),
            !old(self).absorbs(key@, views(tokens@)) ==> forall|t: Seq<Seq<char>>|
                routes_alike(old(self).config().depth, t, views(tokens@)) ==> #[trigger] final(self).candidates(
                    key@,
                    t,
                ) == old(self).candidates(key@, t).push(r.0),
            forall|k: Seq<char>, t: Seq<Seq<char>>|
                k != key@ ==> #[trigger] final(self).candidates(k, t) == old(self).candidates(k, t),
    {
        let ghost toks = views(tokens@);
        let ghost tv0 = tree_view(self.nodes@);
        let ghost s1 = if key@.len() == 0 {
            (tv0, 0int)
        } else {
            descend_v(tv0, 0, (0, key@, 0))
        };
        let ghost old_nodes = self.nodes@;
        let ghost maxc = self.cfg.max_children as nat;
        let mut node: usize = 0;
        let ghost mut cur: Option<int> = Some(0);
        proof {
            assert(kept_apart(old_nodes, self.nodes@, key@));
        }
        if !key.is_empty() {
            node = self.descend(0, RouteKey::Key(key.to_owned()));
            proof {
                cur = child(old_nodes, 0, (0, key@, 0));
                let b = self.nodes@;
                assert forall|q: int| 0 < q < old_nodes.len() && old_nodes[q].key@ != key@ implies #[trigger] b[q]
                    == old_nodes[q] by {}
                assert(kept_apart(old_nodes, b, key@));
            }
        } else {
            proof {
                assert(key@ =~= Seq::<char>::empty());
            }
        }
        let ghost top_nodes = self.nodes@;
        proof {
            if key@.len() == 0 {
                assert(tree_view(self.nodes@) == tv0);
            }
            assert((tree_view(self.nodes@), node as int) == s1);
        }
        let n = tokens.len();
        let ghost s2 = descend_v(s1.0, s1.1, (1, Seq::empty(), n as nat));
        let ghost pre_len = self.nodes@;
        let ghost at = node as int;
        node = self.descend(node, RouteKey::Len(n));
        proof {
            if key@.len() == 0 {
                assert(at == 0);
                assert(pre_len == old_nodes);
                let b = self.nodes@;
                assert forall|q: int| 0 < q < old_nodes.len() && old_nodes[q].key@ != key@ implies #[trigger] b[q]
                    == old_nodes[q] by {}
                assert(kept_apart(old_nodes, b, key@));
            } else {
                lemma_apart_step(old_nodes, pre_len, self.nodes@, key@, at);
            }
            assert((tree_view(self.nodes@), node as int) == s2);
            assert(grow_v(s2.0, maxc, s2.1, toks, 0, 0) == s2);
            cur = step(old_nodes, cur, (1, Seq::empty(), n as nat));
            assert(cur == start(old_nodes, key@, toks.len()));
            if key@.len() > 0 {
                assert(self.nodes@[0] == top_nodes[0]);
            }
            assert(start(self.nodes@, key@, toks.len()) == Some(node as int));
            assert(route(self.nodes@, self.cfg, key@, toks, 0) == Some(node as int));
        }
        let depth = self.cfg.depth;
        let lead: usize = if depth >= 2 {
            if depth - 2 < n {
                depth - 2
            } else {
                n
            }
        } else {
            0
        };
        let mut i: usize = 0;
        while i < lead
            invariant
                self.wf(),
                i <= lead,
                lead == lead_count(self.cfg.depth, toks.len()),
                lead <= tokens.len(),
                toks == views(tokens@),
                maxc == self.cfg.max_children as nat,
                self.cfg == old(self).cfg,
                self.clusters@ == old(self).clusters@,
                self.keys@ == old(self).keys@,
                self.inserted == old(self).inserted,
                old_nodes == old(self).nodes@,
                node < self.nodes@.len(),
                self.nodes@[node as int].width@ == toks.len(),
                self.nodes@[node as int].key@ == key@,
                cur is Some ==> node == cur->0 && self.nodes@ == old_nodes,
                cur is None ==> self.nodes@[node as int].children@.len() == 0
                    && self.nodes@[node as int].clusters@.len() == 0,
                walk(old_nodes, maxc, cur, toks, i as nat, lead as nat) == old(self).leaf(key@, toks),
                route(self.nodes@, self.cfg, key@, toks, i as nat) == Some(node as int),
                (tree_view(self.nodes@), node as int) == grow_v(s2.0, maxc, s2.1, toks, 0, i as nat),
                0 < node,
                kept_apart(old_nodes, self.nodes@, key@),
            decreases lead - i,
        {
            let tok = &tokens[i];
            let k = if str_eq(tok.as_str(), "<*>") || has_digit(tok.as_str()) {
                "<*>".to_owned()
            } else {
                tok.clone()
            };
            proof {
                reveal_strlit("<*>");
                assert(toks[i as int] == tokens@[i as int]@);
                assert(k@ == tok_key(toks[i as int]));
            }
            let found = self.find_child(node, &RouteKey::Token(k.clone()));
            let full = self.nodes[node].children.len() >= self.cfg.max_children;
            let k2 = if found.is_none() && full {
                "<*>".to_owned()
            } else {
                k
            };
            proof {
                assert(k2@ == chosen(old_nodes, maxc, cur, toks[i as int]));
                assert(k2@ == chosen(self.nodes@, maxc, Some(node as int), toks[i as int]));
            }
            let ghost pre = *self;
            let ghost from = node as int;
            let ghost kk2 = k2@;
            node = self.descend(node, RouteKey::Token(k2));
            proof {
                cur = step(old_nodes, cur, (2, chosen(old_nodes, maxc, cur, toks[i as int]), 0));
                let a = pre.nodes@;
                let b = self.nodes@;
                assert(agree_below(a, b, from));
                lemma_route_frame(pre, b, from, key@, toks, i as nat);
                lemma_token_step(a, b, maxc, from, node as int, toks[i as int], kk2);
                lemma_walk_extend(b, maxc, start(b, key@, toks.len()), toks, 0, i as nat);
                lemma_chosen_v(a, maxc, from, toks[i as int]);
                lemma_grow_extend(s2.0, maxc, s2.1, toks, 0, i as nat);
                lemma_apart_step(old_nodes, a, b, key@, from);
            }
            i = i + 1;
        }
        proof {
            assert(cur == old(self).leaf(key@, toks));
        }
        let cands = &self.nodes[node].clusters;
        proof {
            if cur is Some {
                assert(old(self).candidates(key@, toks) == cands@);
            } else {
                assert(old(self).candidates(key@, toks) =~= cands@);
            }
        }
        let mut absorb = false;
        let mut cid: u64 = 0;
        if cands.len() > 0 {
            proof {
                assert(cur is Some);
                assert forall|j: int| 0 <= j < cands.len() implies {
                    let id = #[trigger] cands@[j];
                    &&& 1 <= id <= self.clusters@.len()
                    &&& self.clusters@[id - 1].tokens@.len() == toks.len()
                    &&& self.keys@[id - 1] == key@
                } by {
                    assert(self.nodes@[node as int].clusters@[j] == cands@[j]);
                }
            }
            let j = best_candidate(&self.clusters, cands, &tokens);
            cid = cands[j];
            assert(cid == cands@[j as int]);
            let nc = self.clusters.len();
            assert(1 <= cid <= nc);
            let ci = (cid - 1) as usize;
            assert(ci == cid - 1);
            let same = agree_count(&self.clusters[ci].tokens, &tokens);
            let width = tokens.len();
            let thr = self.cfg.similarity_threshold_ppm;
            proof {
                lemma_agree_upto_bound(views(self.clusters@[cid - 1].tokens@), toks, toks.len() as int);
                assert((thr as int) * (width as int) <= (u64::MAX as int) * (u64::MAX as int))
                    by (nonlinear_arith)
                    requires
                        thr <= u64::MAX,
                        width <= u64::MAX,
                ;
            }
            absorb = width > 0 && (same >= 2 || width == 1) && same as u128 * 1_000_000
                >= thr as u128 * width as u128;
            proof {
                assert(old(self).pick(key@, toks) == Some(cid));
                assert(toks.len() == width);
                assert(same == agreeing(views(old(self).clusters()[cid - 1].tokens@), toks));
                assert(old(self).config().similarity_threshold_ppm == thr);
                assert(absorb == old(self).absorbs(key@, toks));
            }
        }
        proof {
            assert(absorb == old(self).absorbs(key@, toks));
            assert(absorb ==> old(self).pick(key@, toks) == Some(cid));
            assert(absorb ==> 1 <= cid <= self.clusters@.len() && self.clusters@[cid - 1].tokens@.len() == toks.len()
                && self.keys@[cid - 1] == key@);
        }
        if absorb {
            let nc = self.clusters.len();
            assert(1 <= cid <= nc);
            let idx = (cid - 1) as usize;
            assert(idx == cid - 1);
            let t = generalized(&self.clusters[idx].tokens, &tokens);
            let size = self.clusters[idx].size;
            let ghost before = self.clusters@;
            self.clusters.set(idx, Cluster { id: cid, tokens: t, size: size + 1 });
            self.inserted = self.inserted + 1;
            proof {
                assert(views(t@).len() == t@.len());
                assert(self.clusters@[idx as int].tokens@.len() == before[idx as int].tokens@.len());
                assert forall|i: int| 0 <= i < self.clusters@.len() && i != idx implies #[trigger] self.clusters@[i]
                    == before[i] by {}
                let nodes = self.nodes@;
                assert forall|m: int, j: int|
                    0 <= m < nodes.len() && 0 <= j < nodes[m].clusters@.len() implies {
                        let id = #[trigger] nodes[m].clusters@[j];
                        &&& 1 <= id <= self.clusters@.len()
                        &&& self.clusters@[id - 1].tokens@.len() == nodes[m].width@
                        &&& self.keys@[id - 1] == nodes[m].key@
                    } by {
                    let id = nodes[m].clusters@[j];
                    if id - 1 != idx {
                        assert(self.clusters@[id - 1] == before[id - 1]);
                    }
                }
                assert forall|i: int| 0 <= i < self.clusters@.len() implies #[trigger] self.clusters@[i].size
                    <= self.inserted && self.clusters@[i].id == i + 1 by {
                    if i != idx {
                        assert(self.clusters@[i] == before[i]);
                    }
                }
            }
            proof {
                assert(self.nodes@ == old(self).nodes@);
                assert forall|k: Seq<char>, t: Seq<Seq<char>>|
                    #[trigger] self.candidates(k, t) == old(self).candidates(k, t) by {}
                assert(outcome_merged(*old(self), *self, key@, toks, (cid, false)));
                assert forall|k: Seq<char>, t: Seq<Seq<char>>|
                    k != key@ implies #[trigger] self.candidates(k, t) == old(self).candidates(k, t) by {}
                assert(self.shape() == grown_v(old(self).shape(), old(self).config(), key@, toks, None));
            }
            (cid, false)
        } else {
            let id = self.clusters.len() as u64 + 1;
            let ghost nodes0 = self.nodes@;
            let ghost before = self.clusters@;
            let ghost pre = *self;
            self.nodes[node].clusters.push(id);
            self.clusters.push(Cluster { id, tokens, size: 1 });
            proof {
                self.keys@ = self.keys@.push(key@);
            }
            self.inserted = self.inserted + 1;
            proof {
                let nodes = self.nodes@;
                assert forall|m: int| 0 <= m < nodes.len() && m != node implies #[trigger] nodes[m] == nodes0[m] by {}
                assert forall|m: int, j: int|
                    0 <= m < nodes.len() && 0 <= j < nodes[m].children@.len() implies {
                        let e = #[trigger] nodes[m].children@[j];
                        &&& m < e.1 < nodes.len()
                        &&& nodes[e.1 as int].width@ == edge_width(kv(e.0), nodes[m].width@)
                        &&& nodes[e.1 as int].key@ == edge_key(kv(e.0), nodes[m].key@)
                    } by {
                    assert(nodes[m].children@ == nodes0[m].children@);
                    let e = nodes[m].children@[j];
                    assert(e == nodes0[m].children@[j]);
                    assert(nodes[e.1 as int].width@ == nodes0[e.1 as int].width@);
                    assert(nodes[e.1 as int].key@ == nodes0[e.1 as int].key@);
                }
                assert forall|m: int, j: int|
                    0 <= m < nodes.len() && 0 <= j < nodes[m].clusters@.len() implies {
                        let id = #[trigger] nodes[m].clusters@[j];
                        &&& 1 <= id <= self.clusters@.len()
                        &&& self.clusters@[id - 1].tokens@.len() == nodes[m].width@
                        &&& self.keys@[id - 1] == nodes[m].key@
                    } by {
                    if m == node && j == nodes0[m].clusters@.len() {
                    } else {
                        assert(nodes[m].clusters@[j] == nodes0[m].clusters@[j]);
                        assert(nodes[m].width@ == nodes0[m].width@);
                        assert(nodes[m].key@ == nodes0[m].key@);
                        let id = nodes[m].clusters@[j];
                        assert(self.clusters@[id - 1] == before[id - 1]);
                        assert(self.keys@[id - 1] == old(self).keys@[id - 1]);
                    }
                }
                assert forall|i: int| 0 <= i < self.clusters@.len() implies #[trigger] self.clusters@[i].size
                    <= self.inserted && self.clusters@[i].id == i + 1 by {
                    if i < before.len() {
                        assert(self.clusters@[i] == before[i]);
                    }
                }
                assert(nodes[node as int].children@ == nodes0[node as int].children@);
                assert(agree_below(nodes0, nodes, nodes.len() as int));
                lemma_route_frame(pre, nodes, nodes.len() as int, key@, toks, lead as nat);
                assert(self.candidates(key@, toks) == old(self).candidates(key@, toks).push(id));
                assert forall|t: Seq<Seq<char>>|
                    routes_alike(old(self).config().depth, t, toks) implies #[trigger] self.candidates(key@, t)
                        == old(self).candidates(key@, t).push(id) by {
                    law_same_route_same_candidates(*self, key@, t, toks);
                    law_same_route_same_candidates(*old(self), key@, t, toks);
                }
                assert(outcome_created(*old(self), *self, key@, toks, (id, true)));
                lemma_apart_step(old_nodes, nodes0, nodes, key@, node as int);
                assert forall|k: Seq<char>, t: Seq<Seq<char>>|
                    k != key@ implies #[trigger] self.candidates(k, t) == old(self).candidates(k, t) by {
                    lemma_candidates_apart(*old(self), *self, key@, k, t);
                }
                assert(self.shape() == grown_v(old(self).shape(), old(self).config(), key@, toks, Some(id)));
            }
            (id, true)
        }
    }
}

/// The node a message reaches from `cur` along leading tokens `i..lead`,
/// on plain values (see `walk`).
pub open spec fn walk_v(sh: Seq<NodeView>, max_children: nat, cur: Option<int>, toks: Seq<Seq<char>>, i: nat, lead: nat) -> Option<int>
    decreases lead - i,
{
    if i >= lead {
        cur
    } else {
        match cur {
            Some(n) => walk_v(
                sh,
                max_children,
                find_v(sh[n].edges, (2, chosen_v(sh, max_children, n, toks[i as int]), 0), 0),
                toks,
                i + 1,
                lead,
            ),
            None => None,
        }
    }
}

/// Where a message enters the token levels, on plain values (see `start`).
pub open spec fn start_v(sh: Seq<NodeView>, key: Seq<char>, n: nat) -> Option<int> {
    let top = if key.len() == 0 {
        Some(0int)
    } else {
        find_v(sh[0].edges, (0, key, 0), 0)
    };
    match top {
        Some(q) => find_v(sh[q].edges, (1, Seq::empty(), n), 0),
        None => None,
    }
}

/// The ids a message is compared with, read off the tree's plain view:
/// the clusters at the leaf its route reaches, none when it reaches none.
pub open spec fn candidates_v(sh: Seq<NodeView>, cfg: DrainCfg, key: Seq<char>, toks: Seq<Seq<char>>) -> Seq<u64> {
    match walk_v(
        sh,
        cfg.max_children as nat,
        start_v(sh, key, toks.len()),
        toks,
        0,
        lead_count(cfg.depth, toks.len()),
    ) {
        Some(n) => sh[n].clusters,
        None => Seq::empty(),
    }
}

/// The tree and the leaf after a message is routed, each missing edge on
/// its way added (see `descend_v`, `grow_v`).
pub open spec fn routed_v(sh: Seq<NodeView>, cfg: DrainCfg, key: Seq<char>, toks: Seq<Seq<char>>) -> (
    Seq<NodeView>,
    int,
) {
    let s1 = if key.len() == 0 {
        (sh, 0int)
    } else {
        descend_v(sh, 0, (0, key, 0))
    };
    let s2 = descend_v(s1.0, s1.1, (1, Seq::empty(), toks.len()));
    grow_v(s2.0, cfg.max_children as nat, s2.1, toks, 0, lead_count(cfg.depth, toks.len()))
}

/// The tree after a message is inserted: routed, and when it founds
/// cluster `id`, that id added at its leaf.
pub open spec fn grown_v(sh: Seq<NodeView>, cfg: DrainCfg, key: Seq<char>, toks: Seq<Seq<char>>, founded: Option<u64>) -> Seq<
    NodeView,
> {
    let r = routed_v(sh, cfg, key, toks);
    match founded {
        Some(id) => r.0.update(r.1, NodeView { edges: r.0[r.1].edges, clusters: r.0[r.1].clusters.push(id) }),
        None => r.0,
    }
}

/// What one insertion does: the message joins the cluster it is compared
/// with when that cluster absorbs it, else founds a new one; the tree grows
/// along the message's route; one more message is counted.
pub open spec fn insertion(before: Drain, after: Drain, key: Seq<char>, toks: Seq<Seq<char>>, r: (u64, bool)) -> bool {
    &&& after.config() == before.config()
    &&& after.inserted() == before.inserted() + 1
    &&& before.absorbs(key, toks) ==> outcome_merged(before, after, key, toks, r)
    &&& !before.absorbs(key, toks) ==> outcome_created(before, after, key, toks, r)
    &&& after.shape() == grown_v(
        before.shape(),
        before.config(),
        key,
        toks,
        if r.1 {
            Some(r.0)
        } else {
            None
        },
    )
}

/// The clusters as plain values: id, template tokens, size.
pub open spec fn cluster_views(d: Drain) -> Seq<(u64, Seq<Seq<char>>, u64)> {
    Seq::new(
        d.clusters().len(),
        |i: int| (d.clusters()[i].id, views(d.clusters()[i].tokens@), d.clusters()[i].size),
    )
}

/// Two trees that will treat every message alike: same configuration,
/// tree, clusters, keys and count.
pub open spec fn same_state(a: Drain, b: Drain) -> bool {
    &&& a.config() == b.config()
    &&& a.shape() == b.shape()
    &&& cluster_views(a) == cluster_views(b)
    &&& a.keys() == b.keys()
    &&& a.inserted() == b.inserted()
}

/// The message joined the picked cluster: it keeps its id, its template
/// generalises over the message, its size grows by one; nothing else moves.
pub open spec fn outcome_merged(
    before: Drain,
    after: Drain,
    key: Seq<char>,
    toks: Seq<Seq<char>>,
    r: (u64, bool),
) -> bool {
    let id = before.pick(key, toks)->0;
    let c = before.clusters()[id - 1];
    &&& r == (id, false)
    &&& 1 <= id <= before.clusters().len()
    &&& c.tokens@.len() == toks.len()
    &&& before.keys()[id - 1] == key
    &&& after.clusters().len() == before.clusters().len()
    &&& after.clusters()[id - 1].id == id
    &&& views(after.clusters()[id - 1].tokens@) == generalize(views(c.tokens@), toks)
    &&& after.clusters()[id - 1].size == c.size + 1
    &&& forall|i: int|
        0 <= i < before.clusters().len() && i != id - 1 ==> #[trigger] after.clusters()[i]
            == before.clusters()[i]
    &&& after.keys() == before.keys()
}

/// The message founded a new cluster, with the next id, the message as its
/// template and size one; nothing else moves.
pub open spec fn outcome_created(
    before: Drain,
    after: Drain,
    key: Seq<char>,
    toks: Seq<Seq<char>>,
    r: (u64, bool),
) -> bool {
    let n = before.clusters().len();
    &&& r.0 == n + 1
    &&& r.1
    &&& after.clusters().len() == n + 1
    &&& forall|i: int| 0 <= i < n ==> #[trigger] after.clusters()[i] == before.clusters()[i]
    &&& after.clusters()[n as int].id == n + 1
    &&& views(after.clusters()[n as int].tokens@) == toks
    &&& after.clusters()[n as int].size == 1
    &&& after.keys() == before.keys().push(key)
}

} // verus!

verus! {


// ------------------------------------------------------------------ routing frames

/// The nodes below `m` exist in both trees with the same edges.
spec fn agree_below(a: Seq<Node>, b: Seq<Node>, m: int) -> bool {
    &&& 0 <= m <= a.len()
    &&& m <= b.len()
    &&& forall|q: int| 0 <= q < m ==> #[trigger] b[q].children@ == a[q].children@
}

proof fn lemma_walk_none(nodes: Seq<Node>, maxc: nat, toks: Seq<Seq<char>>, i: nat, j: nat)
    ensures
        walk(nodes, maxc, None, toks, i, j) is None,
    decreases j - i,
{
    if i < j {
        lemma_walk_none(nodes, maxc, toks, i + 1, j);
    }
}

proof fn lemma_walk_extend(nodes: Seq<Node>, maxc: nat, cur: Option<int>, toks: Seq<Seq<char>>, i: nat, j: nat)
    requires
        i <= j,
    ensures
        walk(nodes, maxc, cur, toks, i, j + 1) == step(
            nodes,
            walk(nodes, maxc, cur, toks, i, j),
            (2, chosen(nodes, maxc, walk(nodes, maxc, cur, toks, i, j), toks[j as int]), 0),
        ),
    decreases j - i,
{
    let nxt = step(nodes, cur, (2, chosen(nodes, maxc, cur, toks[i as int]), 0));
    assert(walk(nodes, maxc, cur, toks, i, j + 1) == walk(nodes, maxc, nxt, toks, i + 1, j + 1));
    if i < j {
        assert(walk(nodes, maxc, cur, toks, i, j) == walk(nodes, maxc, nxt, toks, i + 1, j));
        lemma_walk_extend(nodes, maxc, nxt, toks, i + 1, j);
    } else {
        assert(walk(nodes, maxc, cur, toks, i, j) == cur);
        assert(walk(nodes, maxc, nxt, toks, i + 1, j + 1) == nxt);
    }
}

proof fn lemma_child_forward(d: Drain, q: int, t: (int, Seq<char>, nat))
    requires
        d.wf(),
        0 <= q < d.nodes@.len(),
        child(d.nodes@, q, t) is Some,
    ensures
        q < child(d.nodes@, q, t)->0 < d.nodes@.len(),
{
    let ch = d.nodes@[q].children@;
    lemma_find_from(ch, t, 0);
    let x = choose|x: int| 0 <= x < ch.len() && kv(#[trigger] ch[x].0) == t && ch[x].1 == find_from(ch, t, 0)->0;
    assert(d.nodes@[q].children@[x] == ch[x]);
}

proof fn lemma_walk_forward(d: Drain, q: int, toks: Seq<Seq<char>>, i: nat, j: nat)
    requires
        d.wf(),
        0 <= q < d.nodes@.len(),
        walk(d.nodes@, d.cfg.max_children as nat, Some(q), toks, i, j) is Some,
    ensures
        ({
            let r = walk(d.nodes@, d.cfg.max_children as nat, Some(q), toks, i, j)->0;
            &&& q <= r < d.nodes@.len()
            &&& i < j ==> q < r
        }),
    decreases j - i,
{
    if i < j {
        let maxc = d.cfg.max_children as nat;
        let t = (2int, chosen(d.nodes@, maxc, Some(q), toks[i as int]), 0nat);
        let nxt = step(d.nodes@, Some(q), t);
        if nxt is None {
            lemma_walk_none(d.nodes@, maxc, toks, i + 1, j);
        } else {
            lemma_child_forward(d, q, t);
            lemma_walk_forward(d, nxt->0, toks, i + 1, j);
        }
    }
}

proof fn lemma_walk_frame(d: Drain, b: Seq<Node>, m: int, q: int, toks: Seq<Seq<char>>, i: nat, j: nat)
    requires
        d.wf(),
        agree_below(d.nodes@, b, m),
        0 <= q < m,
        walk(d.nodes@, d.cfg.max_children as nat, Some(q), toks, i, j) is Some,
        walk(d.nodes@, d.cfg.max_children as nat, Some(q), toks, i, j)->0 <= m,
    ensures
        walk(b, d.cfg.max_children as nat, Some(q), toks, i, j) == walk(
            d.nodes@,
            d.cfg.max_children as nat,
            Some(q),
            toks,
            i,
            j,
        ),
    decreases j - i,
{
    if i < j {
        let a = d.nodes@;
        let maxc = d.cfg.max_children as nat;
        assert(b[q].children@ == a[q].children@);
        assert(chosen(b, maxc, Some(q), toks[i as int]) == chosen(a, maxc, Some(q), toks[i as int]));
        let t = (2int, chosen(a, maxc, Some(q), toks[i as int]), 0nat);
        let nxt = step(a, Some(q), t);
        assert(step(b, Some(q), t) == nxt);
        assert(walk(a, maxc, Some(q), toks, i, j) == walk(a, maxc, nxt, toks, i + 1, j));
        assert(walk(b, maxc, Some(q), toks, i, j) == walk(b, maxc, nxt, toks, i + 1, j));
        if nxt is None {
            lemma_walk_none(b, maxc, toks, i + 1, j);
            lemma_walk_none(a, maxc, toks, i + 1, j);
        } else {
            let q2 = nxt->0;
            lemma_child_forward(d, q, t);
            lemma_walk_forward(d, q2, toks, i + 1, j);
            let r = walk(a, maxc, Some(q2), toks, i + 1, j)->0;
            if q2 < m {
                lemma_walk_frame(d, b, m, q2, toks, i + 1, j);
            } else {
                // q2 == m == r: no step is left
                assert(q2 <= r);
                assert(!(i + 1 < j));
                assert(walk(a, maxc, nxt, toks, i + 1, j) == nxt);
                assert(walk(b, maxc, nxt, toks, i + 1, j) == nxt);
            }
        }
    }
}

proof fn lemma_start_frame(d: Drain, b: Seq<Node>, m: int, key: Seq<char>, n: nat)
    requires
        d.wf(),
        agree_below(d.nodes@, b, m),
        start(d.nodes@, key, n) is Some,
        start(d.nodes@, key, n)->0 <= m,
    ensures
        start(b, key, n) == start(d.nodes@, key, n),
{
    let a = d.nodes@;
    let top = if key.len() == 0 {
        Some(0int)
    } else {
        child(a, 0, (0, key, 0))
    };
    if key.len() > 0 {
        lemma_child_forward(d, 0, (0, key, 0));
    }
    lemma_child_forward(d, top->0, (1, Seq::empty(), n));
    assert(b[0].children@ == a[0].children@);
    assert(b[top->0].children@ == a[top->0].children@);
}

/// Messages of one length whose leading tokens route alike reach the same
/// leaf.
proof fn lemma_walk_same_keys(
    nodes: Seq<Node>,
    maxc: nat,
    cur: Option<int>,
    t1: Seq<Seq<char>>,
    t2: Seq<Seq<char>>,
    i: nat,
    j: nat,
)
    requires
        forall|x: int| i <= x < j ==> tok_key(#[trigger] t1[x]) == tok_key(t2[x]),
    ensures
        walk(nodes, maxc, cur, t1, i, j) == walk(nodes, maxc, cur, t2, i, j),
    decreases j - i,
{
    if i < j {
        assert(tok_key(t1[i as int]) == tok_key(t2[i as int]));
        let nxt = step(nodes, cur, (2, chosen(nodes, maxc, cur, t1[i as int]), 0));
        lemma_walk_same_keys(nodes, maxc, nxt, t1, t2, i + 1, j);
    }
}

/// The node a message has reached after its first `i` leading tokens.
spec fn route(nodes: Seq<Node>, cfg: DrainCfg, key: Seq<char>, toks: Seq<Seq<char>>, i: nat) -> Option<int> {
    walk(nodes, cfg.max_children as nat, start(nodes, key, toks.len()), toks, 0, i)
}

proof fn lemma_route_frame(d: Drain, b: Seq<Node>, m: int, key: Seq<char>, toks: Seq<Seq<char>>, i: nat)
    requires
        d.wf(),
        agree_below(d.nodes@, b, m),
        route(d.nodes@, d.cfg, key, toks, i) is Some,
        route(d.nodes@, d.cfg, key, toks, i)->0 <= m,
    ensures
        route(b, d.cfg, key, toks, i) == route(d.nodes@, d.cfg, key, toks, i),
{
    let a = d.nodes@;
    let maxc = d.cfg.max_children as nat;
    let s = start(a, key, toks.len());
    if s is None {
        lemma_walk_none(a, maxc, toks, 0, i);
    }
    let top = if key.len() == 0 {
        Some(0int)
    } else {
        child(a, 0, (0, key, 0))
    };
    if key.len() > 0 {
        lemma_child_forward(d, 0, (0, key, 0));
    }
    lemma_child_forward(d, top->0, (1, Seq::empty(), toks.len()));
    lemma_walk_forward(d, s->0, toks, 0, i);
    lemma_start_frame(d, b, m, key, toks.len());
    if i > 0 {
        lemma_walk_frame(d, b, m, s->0, toks, 0, i);
    } else {
        assert(walk(b, maxc, s, toks, 0, 0) == s);
        assert(walk(a, maxc, s, toks, 0, 0) == s);
    }
}

/// After `descend` along the edge chosen for a token, the token's chosen
/// edge in the new tree is the same and leads to the node descended to.
proof fn lemma_token_step(a: Seq<Node>, b: Seq<Node>, maxc: nat, n: int, c: int, t: Seq<char>, k2: Seq<char>)
    requires
        k2 == chosen(a, maxc, Some(n), t),
        child(a, n, (2, k2, 0)) is Some ==> b == a,
        child(a, n, (2, k2, 0)) is None ==> {
            &&& b[n].children@ == a[n].children@.push(b[n].children@.last())
            &&& kv(b[n].children@.last().0) == (2int, k2, 0nat)
        },
        child(b, n, (2, k2, 0)) == Some(c),
    ensures
        chosen(b, maxc, Some(n), t) == k2,
        step(b, Some(n), (2, chosen(b, maxc, Some(n), t), 0)) == Some(c),
{
    if child(a, n, (2, k2, 0)) is None {
        let kk = tok_key(t);
        let e = b[n].children@.last();
        lemma_find_push(a[n].children@, e, (2, kk, 0), 0);
    }
}

/// Messages of one length whose leading tokens have the same routing keys.
pub open spec fn routes_alike(depth: usize, a: Seq<Seq<char>>, b: Seq<Seq<char>>) -> bool {
    &&& a.len() == b.len()
    &&& forall|x: int| 0 <= x < lead_count(depth, a.len()) ==> tok_key(#[trigger] a[x]) == tok_key(b[x])
}

proof fn lemma_grow_extend(sh: Seq<NodeView>, maxc: nat, n: int, toks: Seq<Seq<char>>, i: nat, j: nat)
    requires
        i <= j,
    ensures
        grow_v(sh, maxc, n, toks, i, j + 1) == ({
            let g = grow_v(sh, maxc, n, toks, i, j);
            descend_v(g.0, g.1, (2, chosen_v(g.0, maxc, g.1, toks[j as int]), 0))
        }),
    decreases j - i,
{
    let s = descend_v(sh, n, (2, chosen_v(sh, maxc, n, toks[i as int]), 0));
    assert(grow_v(sh, maxc, n, toks, i, j + 1) == grow_v(s.0, maxc, s.1, toks, i + 1, j + 1));
    if i < j {
        assert(grow_v(sh, maxc, n, toks, i, j) == grow_v(s.0, maxc, s.1, toks, i + 1, j));
        lemma_grow_extend(s.0, maxc, s.1, toks, i + 1, j);
    } else {
        assert(grow_v(sh, maxc, n, toks, i, j) == (sh, n));
        assert(grow_v(s.0, maxc, s.1, toks, i + 1, j + 1) == s);
    }
}

proof fn lemma_chosen_v(nodes: Seq<Node>, maxc: nat, n: int, t: Seq<char>)
    requires
        0 <= n < nodes.len(),
    ensures
        chosen(nodes, maxc, Some(n), t) == chosen_v(tree_view(nodes), maxc, n, t),
{
    lemma_find_v(nodes[n].children@, (2, tok_key(t), 0), 0);
}

/// Along the edge labelled `t`, node `q` leads to the same child in two
/// trees with the same plain view.
proof fn lemma_child_view(a: Seq<Node>, b: Seq<Node>, q: int, t: (int, Seq<char>, nat))
    requires
        tree_view(a) == tree_view(b),
        0 <= q < a.len(),
    ensures
        child(a, q, t) == child(b, q, t),
        a.len() == b.len(),
        a[q].children@.len() == b[q].children@.len(),
        a[q].clusters@ == b[q].clusters@,
{
    assert(tree_view(a).len() == a.len());
    assert(tree_view(b).len() == b.len());
    assert(tree_view(a)[q] == tree_view(b)[q]);
    assert(tree_view(a)[q].edges == edges_v(a[q].children@));
    assert(tree_view(b)[q].edges == edges_v(b[q].children@));
    assert(edges_v(a[q].children@).len() == a[q].children@.len());
    assert(edges_v(b[q].children@).len() == b[q].children@.len());
    lemma_find_v(a[q].children@, t, 0);
    lemma_find_v(b[q].children@, t, 0);
}

proof fn lemma_walk_view(a: Drain, b: Seq<Node>, cur: Option<int>, toks: Seq<Seq<char>>, i: nat, j: nat)
    requires
        a.wf(),
        tree_view(a.nodes@) == tree_view(b),
        cur is Some ==> 0 <= cur->0 < a.nodes@.len(),
    ensures
        walk(a.nodes@, a.cfg.max_children as nat, cur, toks, i, j) == walk(b, a.cfg.max_children as nat, cur, toks, i, j),
    decreases j - i,
{
    if i < j {
        let maxc = a.cfg.max_children as nat;
        let an = a.nodes@;
        if cur is Some {
            let q = cur->0;
            let k = tok_key(toks[i as int]);
            lemma_child_view(an, b, q, (2, k, 0));
            let t = (2int, chosen(an, maxc, cur, toks[i as int]), 0nat);
            assert(chosen(b, maxc, cur, toks[i as int]) == t.1);
            lemma_child_view(an, b, q, t);
            let nxt = step(an, cur, t);
            assert(step(b, cur, t) == nxt);
            assert(walk(an, maxc, cur, toks, i, j) == walk(an, maxc, nxt, toks, i + 1, j));
            assert(walk(b, maxc, cur, toks, i, j) == walk(b, maxc, nxt, toks, i + 1, j));
            if nxt is Some {
                lemma_child_forward(a, q, t);
            }
            lemma_walk_view(a, b, nxt, toks, i + 1, j);
        } else {
            lemma_walk_none(an, maxc, toks, i, j);
            lemma_walk_none(b, maxc, toks, i, j);
        }
    }
}

proof fn lemma_candidates_view(a: Drain, b: Drain, key: Seq<char>, toks: Seq<Seq<char>>)
    requires
        a.wf(),
        a.shape() == b.shape(),
        a.config() == b.config(),
    ensures
        a.candidates(key, toks) == b.candidates(key, toks),
{
    let an = a.nodes@;
    let bn = b.nodes@;
    let maxc = a.cfg.max_children as nat;
    let lead = lead_count(a.cfg.depth, toks.len());
    lemma_child_view(an, bn, 0, (0, key, 0));
    let top = if key.len() == 0 {
        Some(0int)
    } else {
        child(an, 0, (0, key, 0))
    };
    let s = start(an, key, toks.len());
    if top is Some {
        if key.len() > 0 {
            lemma_child_forward(a, 0, (0, key, 0));
        }
        let q = top->0;
        lemma_child_view(an, bn, q, (1, Seq::empty(), toks.len()));
        if s is Some {
            lemma_child_forward(a, q, (1, Seq::empty(), toks.len()));
        }
    }
    assert(start(bn, key, toks.len()) == s);
    lemma_walk_view(a, bn, s, toks, 0, lead);
    let l = a.leaf(key, toks);
    if l is Some {
        if s is None {
            lemma_walk_none(an, maxc, toks, 0, lead);
        }
        lemma_walk_forward(a, s->0, toks, 0, lead);
        lemma_child_view(an, bn, l->0, (0, key, 0));
    }
}

/// The label an insertion under `key` may add at the root: its key's edge,
/// or (for the empty key) a token-count edge.
spec fn root_label_of(t: (int, Seq<char>, nat), key: Seq<char>) -> bool {
    if key.len() == 0 {
        t.0 == 1
    } else {
        t == (0int, key, 0nat)
    }
}

/// `b` is `a` after routing under `key`: nodes under other keys are as they
/// were, and the root at most gained one edge of its own.
spec fn kept_apart(a: Seq<Node>, b: Seq<Node>, key: Seq<char>) -> bool {
    &&& 1 <= a.len() <= b.len()
    &&& forall|q: int| 0 < q < a.len() && a[q].key@ != key ==> #[trigger] b[q] == a[q]
    &&& b[0].clusters@ == a[0].clusters@
    &&& b[0].key@ == a[0].key@
    &&& b[0].width@ == a[0].width@
    &&& (b[0].children@ == a[0].children@ || (b[0].children@ == a[0].children@.push(b[0].children@.last())
        && root_label_of(kv(b[0].children@.last().0), key)))
}

proof fn lemma_apart_step(a: Seq<Node>, b: Seq<Node>, b2: Seq<Node>, key: Seq<char>, n: int)
    requires
        kept_apart(a, b, key),
        0 < n < b.len(),
        b[n].key@ == key,
        b2.len() >= b.len(),
        forall|m: int| 0 <= m < b.len() && m != n ==> #[trigger] b2[m] == b[m],
    ensures
        kept_apart(a, b2, key),
{
    assert(b2[0] == b[0]);
    assert forall|q: int| 0 < q < a.len() && a[q].key@ != key implies #[trigger] b2[q] == a[q] by {
        assert(b[q] == a[q]);
        assert(q != n);
        assert(b2[q] == b[q]);
    }
}

proof fn lemma_walk_apart(
    d: Drain,
    b: Seq<Node>,
    key: Seq<char>,
    k: Seq<char>,
    cur: Option<int>,
    toks: Seq<Seq<char>>,
    i: nat,
    j: nat,
)
    requires
        d.wf(),
        kept_apart(d.nodes@, b, key),
        k != key,
        cur is Some ==> 0 < cur->0 < d.nodes@.len() && d.nodes@[cur->0].key@ == k,
    ensures
        walk(d.nodes@, d.cfg.max_children as nat, cur, toks, i, j) == walk(b, d.cfg.max_children as nat, cur, toks, i, j),
        ({
            let r = walk(d.nodes@, d.cfg.max_children as nat, cur, toks, i, j);
            r is Some ==> 0 < r->0 < d.nodes@.len() && d.nodes@[r->0].key@ == k
        }),
    decreases j - i,
{
    let a = d.nodes@;
    let maxc = d.cfg.max_children as nat;
    if i < j {
        if cur is Some {
            let q = cur->0;
            assert(b[q] == a[q]);
            let t = (2int, chosen(a, maxc, cur, toks[i as int]), 0nat);
            assert(chosen(b, maxc, cur, toks[i as int]) == t.1);
            let nxt = step(a, cur, t);
            assert(step(b, cur, t) == nxt);
            assert(walk(a, maxc, cur, toks, i, j) == walk(a, maxc, nxt, toks, i + 1, j));
            assert(walk(b, maxc, cur, toks, i, j) == walk(b, maxc, nxt, toks, i + 1, j));
            if nxt is Some {
                lemma_step_token(d, q, t);
                lemma_child_forward(d, q, t);
            }
            lemma_walk_apart(d, b, key, k, nxt, toks, i + 1, j);
        } else {
            lemma_walk_none(a, maxc, toks, i, j);
            lemma_walk_none(b, maxc, toks, i, j);
        }
    }
}

proof fn lemma_root_child_apart(d: Drain, b: Seq<Node>, key: Seq<char>, t: (int, Seq<char>, nat))
    requires
        d.wf(),
        kept_apart(d.nodes@, b, key),
        !root_label_of(t, key),
    ensures
        child(b, 0, t) == child(d.nodes@, 0, t),
{
    let a = d.nodes@;
    if b[0].children@ != a[0].children@ {
        lemma_find_push(a[0].children@, b[0].children@.last(), t, 0);
    }
}

/// Inserting under one routing key leaves the clusters that messages under
/// any other key are compared with as they were.
proof fn lemma_candidates_apart(d: Drain, after: Drain, key: Seq<char>, k: Seq<char>, toks: Seq<Seq<char>>)
    requires
        d.wf(),
        kept_apart(d.nodes@, after.nodes@, key),
        after.cfg == d.cfg,
        k != key,
    ensures
        after.candidates(k, toks) == d.candidates(k, toks),
{
    let a = d.nodes@;
    let b = after.nodes@;
    let n = toks.len();
    let lt = (1int, Seq::<char>::empty(), n);
    let top = if k.len() == 0 {
        Some(0int)
    } else {
        child(a, 0, (0, k, 0))
    };
    if k.len() == 0 {
        assert(k =~= Seq::<char>::empty());
        assert(key.len() > 0) by {
            if key.len() == 0 {
                assert(key =~= k);
            }
        }
        assert(!root_label_of(lt, key));
        lemma_root_child_apart(d, b, key, lt);
        if child(a, 0, lt) is Some {
            lemma_child_forward(d, 0, lt);
            let ch = a[0].children@;
            lemma_find_from(ch, lt, 0);
            let x = choose|x: int| 0 <= x < ch.len() && kv(#[trigger] ch[x].0) == lt && ch[x].1 == find_from(ch, lt, 0)->0;
            assert(a[0].children@[x] == ch[x]);
        }
    } else {
        assert(!root_label_of((0int, k, 0nat), key));
        lemma_root_child_apart(d, b, key, (0, k, 0));
        if top is Some {
            let ch = a[0].children@;
            lemma_child_forward(d, 0, (0, k, 0));
            lemma_find_from(ch, (0int, k, 0nat), 0);
            let x = choose|x: int| 0 <= x < ch.len() && kv(#[trigger] ch[x].0) == (0int, k, 0nat) && ch[x].1 == find_from(ch, (0int, k, 0nat), 0)->0;
            assert(a[0].children@[x] == ch[x]);
            let q = top->0;
            assert(a[q].key@ == k);
            assert(b[q] == a[q]);
            if child(a, q, lt) is Some {
                lemma_child_forward(d, q, lt);
                let cq = a[q].children@;
                lemma_find_from(cq, lt, 0);
                let y = choose|y: int| 0 <= y < cq.len() && kv(#[trigger] cq[y].0) == lt && cq[y].1 == find_from(cq, lt, 0)->0;
                assert(a[q].children@[y] == cq[y]);
            }
        }
    }
    let s = start(a, k, n);
    assert(start(b, k, n) == s);
    let lead = lead_count(d.cfg.depth, n);
    lemma_walk_apart(d, b, key, k, s, toks, 0, lead);
    let l = d.leaf(k, toks);
    if l is Some {
        assert(b[l->0] == a[l->0]);
    }
}

// ------------------------------------------------------------------ laws

proof fn lemma_step_token(d: Drain, n: int, t: (int, Seq<char>, nat))
    requires
        d.wf(),
        0 <= n < d.nodes@.len(),
        t.0 == 2,
        child(d.nodes@, n, t) is Some,
    ensures
        0 <= child(d.nodes@, n, t)->0 < d.nodes@.len(),
        d.nodes@[child(d.nodes@, n, t)->0].width@ == d.nodes@[n].width@,
        d.nodes@[child(d.nodes@, n, t)->0].key@ == d.nodes@[n].key@,
{
    let ch = d.nodes@[n].children@;
    lemma_find_from(ch, t, 0);
    let x = choose|x: int| 0 <= x < ch.len() && kv(#[trigger] ch[x].0) == t && ch[x].1 == find_from(ch, t, 0)->0;
    assert(d.nodes@[n].children@[x] == ch[x]);
}

proof fn lemma_walk(d: Drain, cur: Option<int>, toks: Seq<Seq<char>>, i: nat, lead: nat, w: int, k: Seq<char>)
    requires
        d.wf(),
        cur is Some ==> {
            &&& 0 <= cur->0 < d.nodes@.len()
            &&& d.nodes@[cur->0].width@ == w
            &&& d.nodes@[cur->0].key@ == k
        },
    ensures
        ({
            let r = walk(d.nodes@, d.cfg.max_children as nat, cur, toks, i, lead);
            r is Some ==> {
                &&& 0 <= r->0 < d.nodes@.len()
                &&& d.nodes@[r->0].width@ == w
                &&& d.nodes@[r->0].key@ == k
            }
        }),
    decreases lead - i,
{
    if i < lead {
        let t = (2int, chosen(d.nodes@, d.cfg.max_children as nat, cur, toks[i as int]), 0nat);
        let nxt = step(d.nodes@, cur, t);
        if cur is Some && nxt is Some {
            lemma_step_token(d, cur->0, t);
        }
        lemma_walk(d, nxt, toks, i + 1, lead, w, k);
    }
}

/// Every cluster a message is compared with was founded by a message with
/// the same number of tokens under the same routing key: messages of
/// different lengths, or under different keys, never meet at a leaf.
pub proof fn law_candidates_share_length_and_key(d: Drain, key: Seq<char>, toks: Seq<Seq<char>>)
    requires
        d.wf(),
    ensures
        forall|j: int|
            0 <= j < d.candidates(key, toks).len() ==> {
                let id = #[trigger] d.candidates(key, toks)[j];
                &&& 1 <= id <= d.clusters().len()
                &&& d.clusters()[id - 1].tokens@.len() == toks.len()
                &&& d.keys()[id - 1] == key
            },
{
    let nodes = d.nodes@;
    let top = if key.len() == 0 {
        Some(0int)
    } else {
        child(nodes, 0, (0, key, 0))
    };
    if key.len() == 0 {
        assert(key =~= Seq::<char>::empty());
    } else if top is Some {
        let ch = nodes[0].children@;
        lemma_find_from(ch, (0int, key, 0nat), 0);
        let x = choose|x: int| 0 <= x < ch.len() && kv(#[trigger] ch[x].0) == (0int, key, 0nat) && ch[x].1 == find_from(ch, (0int, key, 0nat), 0)->0;
        assert(nodes[0].children@[x] == ch[x]);
    }
    let s = start(nodes, key, toks.len());
    if s is Some {
        let ch = nodes[top->0].children@;
        let t = (1int, Seq::<char>::empty(), toks.len());
        lemma_find_from(ch, t, 0);
        let x = choose|x: int| 0 <= x < ch.len() && kv(#[trigger] ch[x].0) == t && ch[x].1 == find_from(ch, t, 0)->0;
        assert(nodes[top->0].children@[x] == ch[x]);
    }
    lemma_walk(d, s, toks, 0, lead_count(d.cfg.depth, toks.len()), toks.len() as int, key);
    let l = d.leaf(key, toks);
    if l is Some {
        assert forall|j: int| 0 <= j < d.candidates(key, toks).len() implies {
            let id = #[trigger] d.candidates(key, toks)[j];
            &&& 1 <= id <= d.clusters().len()
            &&& d.clusters()[id - 1].tokens@.len() == toks.len()
            &&& d.keys()[id - 1] == key
        } by {
            assert(d.candidates(key, toks)[j] == nodes[l->0].clusters@[j]);
        }
    }
}

/// Messages of one length whose leading tokens have the same routing keys
/// are compared with the same clusters, in any state of the tree.
pub proof fn law_same_route_same_candidates(d: Drain, key: Seq<char>, t1: Seq<Seq<char>>, t2: Seq<Seq<char>>)
    requires
        routes_alike(d.config().depth, t1, t2),
    ensures
        d.candidates(key, t1) == d.candidates(key, t2),
{
    let nodes = d.nodes@;
    lemma_walk_same_keys(
        nodes,
        d.cfg.max_children as nat,
        start(nodes, key, t2.len()),
        t1,
        t2,
        0,
        lead_count(d.cfg.depth, t2.len()),
    );
}

/// Same lines, same clusters: two trees in the same state that are given
/// the same message return the same (id, created) and stay in the same
/// state; so trees fed the same messages in the same order agree on every
/// id and template.
pub proof fn law_same_messages_same_clusters(
    a0: Drain,
    a1: Drain,
    ra: (u64, bool),
    b0: Drain,
    b1: Drain,
    rb: (u64, bool),
    key: Seq<char>,
    toks: Seq<Seq<char>>,
)
    requires
        a0.wf(),
        b0.wf(),
        same_state(a0, b0),
        insertion(a0, a1, key, toks, ra),
        insertion(b0, b1, key, toks, rb),
    ensures
        ra == rb,
        same_state(a1, b1),
{
    lemma_candidates_view(a0, b0, key, toks);
    let c = a0.candidates(key, toks);
    law_candidates_share_length_and_key(a0, key, toks);
    assert forall|j: int| 0 <= j < c.len() implies views(a0.clusters()[c[j] - 1].tokens@) == views(
        b0.clusters()[c[j] - 1].tokens@,
    ) by {
        assert(cluster_views(a0)[c[j] - 1] == cluster_views(b0)[c[j] - 1]);
    }
    assert(scores_of(a0.clusters(), c, toks) =~= scores_of(b0.clusters(), c, toks));
    assert(a0.pick(key, toks) == b0.pick(key, toks));
    if a0.pick(key, toks) is Some {
        let id = a0.pick(key, toks)->0;
        lemma_first_max(scores_of(a0.clusters(), c, toks));
        assert(cluster_views(a0)[id - 1] == cluster_views(b0)[id - 1]);
    }
    assert(a0.absorbs(key, toks) == b0.absorbs(key, toks));
    assert(ra == rb);
    assert(cluster_views(a1) =~= cluster_views(b1)) by {
        if a0.absorbs(key, toks) {
            let id = a0.pick(key, toks)->0;
            assert forall|i: int| 0 <= i < cluster_views(a1).len() implies cluster_views(a1)[i] == cluster_views(b1)[i] by {
                assert(cluster_views(a0)[i] == cluster_views(b0)[i]);
            }
        } else {
            assert forall|i: int| 0 <= i < cluster_views(a1).len() implies cluster_views(a1)[i] == cluster_views(b1)[i] by {
                if i < a0.clusters().len() {
                    assert(cluster_views(a0)[i] == cluster_views(b0)[i]);
                }
            }
        }
    }
}

proof fn lemma_walk_as_view(d: Drain, cur: Option<int>, toks: Seq<Seq<char>>, i: nat, j: nat)
    requires
        d.wf(),
        cur is Some ==> 0 <= cur->0 < d.nodes@.len(),
    ensures
        walk(d.nodes@, d.cfg.max_children as nat, cur, toks, i, j) == walk_v(
            tree_view(d.nodes@),
            d.cfg.max_children as nat,
            cur,
            toks,
            i,
            j,
        ),
    decreases j - i,
{
    let an = d.nodes@;
    let maxc = d.cfg.max_children as nat;
    if i < j {
        if cur is Some {
            let q = cur->0;
            lemma_chosen_v(an, maxc, q, toks[i as int]);
            let t = (2int, chosen(an, maxc, cur, toks[i as int]), 0nat);
            lemma_find_v(an[q].children@, t, 0);
            let nxt = step(an, cur, t);
            assert(walk(an, maxc, cur, toks, i, j) == walk(an, maxc, nxt, toks, i + 1, j));
            if nxt is Some {
                lemma_child_forward(d, q, t);
            }
            lemma_walk_as_view(d, nxt, toks, i + 1, j);
        } else {
            lemma_walk_none(an, maxc, toks, i, j);
        }
    }
}

/// The clusters a message is compared with are read off the tree's plain
/// view (`shape`): the clusters at the leaf that `walk_v` reaches from
/// `start_v`.
pub proof fn law_candidates_from_shape(d: Drain, key: Seq<char>, toks: Seq<Seq<char>>)
    requires
        d.wf(),
    ensures
        d.candidates(key, toks) == candidates_v(d.shape(), d.config(), key, toks),
{
    let an = d.nodes@;
    let tv = tree_view(an);
    assert(tv[0].edges == edges_v(an[0].children@));
    lemma_find_v(an[0].children@, (0, key, 0), 0);
    let top = if key.len() == 0 {
        Some(0int)
    } else {
        child(an, 0, (0, key, 0))
    };
    let s = start(an, key, toks.len());
    if top is Some {
        if key.len() > 0 {
            lemma_child_forward(d, 0, (0, key, 0));
        }
        let q = top->0;
        assert(tv[q].edges == edges_v(an[q].children@));
        lemma_find_v(an[q].children@, (1, Seq::empty(), toks.len()), 0);
        if s is Some {
            lemma_child_forward(d, q, (1, Seq::empty(), toks.len()));
        }
    }
    assert(start_v(tv, key, toks.len()) == s);
    let lead = lead_count(d.cfg.depth, toks.len());
    lemma_walk_as_view(d, s, toks, 0, lead);
    let l = d.leaf(key, toks);
    if l is Some {
        if s is None {
            lemma_walk_none(an, d.cfg.max_children as nat, toks, 0, lead);
        }
        lemma_walk_forward(d, s->0, toks, 0, lead);
        assert(tv[l->0].clusters == an[l->0].clusters@);
    }
}

/// Absorbing a message only turns positions into the wildcard: every
/// position of the new template either keeps the old token or becomes
/// `<*>`, and every position that is not `<*>` is the message's token.
pub proof fn law_merging_only_adds_wildcards(template: Seq<Seq<char>>, toks: Seq<Seq<char>>)
    requires
        template.len() == toks.len(),
    ensures
        generalize(template, toks).len() == template.len(),
        forall|i: int|
            0 <= i < template.len() ==> {
                let g = #[trigger] generalize(template, toks)[i];
                &&& g == template[i] || g == wildcard()
                &&& g != wildcard() ==> g == toks[i]
            },
{
}

/// Cluster ids are positions in creation order, whatever has been merged.
pub proof fn law_ids_follow_creation_order(d: Drain)
    requires
        d.wf(),
    ensures
        forall|i: int| 0 <= i < d.clusters().len() ==> #[trigger] d.clusters()[i].id == i + 1,
        d.keys().len() == d.clusters().len(),
{
}

} // verus!
