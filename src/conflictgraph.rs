//! A graph of mutually conflicting nodes, colored so that nodes of one color
//! never conflict, then split into one group per color.

use vstd::multiset::Multiset;
use vstd::prelude::*;

use crate::collections::SparseSet;

verus! {

/// Color slot value of a node that has not been colored yet.
pub const UNCOLORED: usize = usize::MAX;

#[derive(Debug, Clone, Copy, PartialEq, Eq, Structural)]
pub enum ConflictGraphError {
    InsertFailed,
    NodeDoesntExist,
    UnresolvedConflict,
    UncoloredNode,
}

impl ConflictGraphError {
    /// A short description of the error.
    pub fn message(&self) -> (r: &'static str) {
        match self {
            ConflictGraphError::InsertFailed => "failed to insert into internal set",
            ConflictGraphError::NodeDoesntExist => "node doesn't exist",
            ConflictGraphError::UnresolvedConflict => "unresolved conflict",
            ConflictGraphError::UncoloredNode => "uncolored node",
        }
    }
}

/// The conflict predicate between two nodes of a graph.
pub trait ConflictCmp {
    /// `self` and `other` must not run at the same time.
    spec fn conflicts(&self, other: &Self) -> bool;

    fn conflict_cmp(&self, other: &Self) -> (r: bool)
        ensures
            r == self.conflicts(other),
    ;
}

/// Nodes `i` and `j` of `nodes` are joined by an edge: they are distinct and
/// the predicate holds in one direction or the other.
pub open spec fn linked<N: ConflictCmp>(nodes: Seq<N>, i: int, j: int) -> bool {
    &&& i != j
    &&& nodes[i].conflicts(&nodes[j]) || nodes[j].conflicts(&nodes[i])
}

/// `adj` is the adjacency matrix of `nodes`.
pub open spec fn is_adjacency<N: ConflictCmp>(nodes: Seq<N>, adj: Seq<Seq<bool>>) -> bool {
    &&& adj.len() == nodes.len()
    &&& forall|i: int| 0 <= i < adj.len() ==> (#[trigger] adj[i]).len() == nodes.len()
    &&& forall|i: int, j: int|
        0 <= i < nodes.len() && 0 <= j < nodes.len() ==> #[trigger] adj[i][j] == linked(nodes, i, j)
}


/// Colors held by the colored neighbors of node `i` among the nodes below `p`.
pub open spec fn forbidden_below<N: ConflictCmp>(
    nodes: Seq<N>,
    colors: Seq<usize>,
    i: int,
    p: int,
) -> Set<usize> {
    Set::new(
        |c: usize|
            c != UNCOLORED && exists|j: int|
                0 <= j < p && linked(nodes, i, j) && #[trigger] colors[j] == c,
    )
}

/// Colors that node `i` may not take.
pub open spec fn forbidden<N: ConflictCmp>(nodes: Seq<N>, colors: Seq<usize>, i: int) -> Set<
    usize,
> {
    forbidden_below(nodes, colors, i, nodes.len() as int)
}

/// Uncolored neighbors of node `i` among the nodes below `p`.
pub open spec fn waiting_below<N: ConflictCmp>(
    nodes: Seq<N>,
    colors: Seq<usize>,
    i: int,
    p: int,
) -> Set<int> {
    Set::new(|j: int| 0 <= j < p && linked(nodes, i, j) && colors[j] == UNCOLORED)
}

/// The number of distinct colors among the colored neighbors of node `i`.
pub open spec fn saturation<N: ConflictCmp>(nodes: Seq<N>, colors: Seq<usize>, i: int) -> nat {
    forbidden(nodes, colors, i).len()
}

/// The number of uncolored neighbors of node `i`.
pub open spec fn waiting<N: ConflictCmp>(nodes: Seq<N>, colors: Seq<usize>, i: int) -> nat {
    waiting_below(nodes, colors, i, nodes.len() as int).len()
}

/// Node `a` is a strictly better pick than node `b`: more distinct neighbor
/// colors, or as many and more uncolored neighbors.
pub open spec fn outranks<N: ConflictCmp>(nodes: Seq<N>, colors: Seq<usize>, a: int, b: int) -> bool {
    ||| saturation(nodes, colors, a) > saturation(nodes, colors, b)
    ||| saturation(nodes, colors, a) == saturation(nodes, colors, b) && waiting(nodes, colors, a)
        > waiting(nodes, colors, b)
}

/// The first uncolored node below `p` that no other uncolored node below
/// `p` outranks.
pub open spec fn pick_below<N: ConflictCmp>(nodes: Seq<N>, colors: Seq<usize>, p: nat) -> Option<
    int,
>
    decreases p,
{
    if p == 0 {
        None
    } else {
        let prev = pick_below(nodes, colors, (p - 1) as nat);
        let i = p - 1;
        if colors[i] == UNCOLORED && (prev is None || outranks(nodes, colors, i, prev->0)) {
            Some(i)
        } else {
            prev
        }
    }
}

/// The smallest color outside `forb`.
pub open spec fn lowest_free(forb: Set<usize>) -> usize {
    choose|c: usize| !forb.contains(c) && forall|d: usize| d < c ==> forb.contains(d)
}

/// The colors after `steps` rounds of coloring, and how many colors are in
/// use. Each round colors the picked node with the lowest free color.
pub open spec fn color_steps<N: ConflictCmp>(nodes: Seq<N>, steps: nat) -> (Seq<usize>, nat)
    decreases steps,
{
    if steps == 0 {
        (Seq::new(nodes.len(), |i: int| UNCOLORED), 0)
    } else {
        let (colors, k) = color_steps(nodes, (steps - 1) as nat);
        match pick_below(nodes, colors, nodes.len()) {
            None => (colors, k),
            Some(i) => {
                let c = lowest_free(forbidden(nodes, colors, i));
                (colors.update(i, c), if c < k {
                    k
                } else {
                    (c + 1) as nat
                })
            },
        }
    }
}

/// The color of each node once every node is colored.
pub open spec fn coloring<N: ConflictCmp>(nodes: Seq<N>) -> Seq<usize> {
    color_steps(nodes, nodes.len()).0
}

/// The number of colors that the coloring uses.
pub open spec fn color_count<N: ConflictCmp>(nodes: Seq<N>) -> nat {
    color_steps(nodes, nodes.len()).1
}

/// The nodes that are colored.
pub open spec fn colored(colors: Seq<usize>) -> Set<int> {
    Set::new(|j: int| 0 <= j < colors.len() && colors[j] != UNCOLORED)
}

/// Some node has color `c`.
pub open spec fn color_used(colors: Seq<usize>, c: nat) -> bool {
    exists|j: int| 0 <= j < colors.len() && colors[j] == c
}

/// A partial coloring with colors `0..k`, each in use, in which no two
/// linked colored nodes share a color.
pub open spec fn proper<N: ConflictCmp>(nodes: Seq<N>, colors: Seq<usize>, k: nat) -> bool {
    &&& colors.len() == nodes.len()
    &&& forall|j: int| 0 <= j < colors.len() && colors[j] != UNCOLORED ==> #[trigger] colors[j] < k
    &&& forall|c: nat| c < k ==> #[trigger] color_used(colors, c)
    &&& forall|i: int, j: int|
        0 <= i < nodes.len() && 0 <= j < nodes.len() && linked(nodes, i, j) && colors[i]
            != UNCOLORED && colors[j] != UNCOLORED ==> #[trigger] colors[i] != #[trigger] colors[j]
}

/// The pick is an uncolored node; there is none only when all are colored.
proof fn lemma_pick_below<N: ConflictCmp>(nodes: Seq<N>, colors: Seq<usize>, p: nat)
    requires
        p <= colors.len(),
    ensures
        match pick_below(nodes, colors, p) {
            Some(b) => 0 <= b < p && colors[b] == UNCOLORED,
            None => forall|j: int| 0 <= j < p ==> colors[j] != UNCOLORED,
        },
    decreases p,
{
    if p > 0 {
        lemma_pick_below(nodes, colors, (p - 1) as nat);
    }
}

/// Some color at or below `k` is free when `k` itself is.
proof fn lemma_lowest_free(forb: Set<usize>, k: usize)
    requires
        !forb.contains(k),
    ensures
        !forb.contains(lowest_free(forb)),
        forall|d: usize| d < lowest_free(forb) ==> forb.contains(d),
        lowest_free(forb) <= k,
    decreases k,
{
    if forall|d: usize| d < k ==> forb.contains(d) {
        assert(!forb.contains(k) && forall|d: usize| d < k ==> forb.contains(d));
        lemma_lowest_free_unique(forb, k);
    } else {
        let d = choose|d: usize| d < k && !forb.contains(d);
        lemma_lowest_free(forb, d);
    }
}

/// Any color that is free while all colors below it are taken is the
/// lowest free one.
proof fn lemma_lowest_free_unique(forb: Set<usize>, c: usize)
    requires
        !forb.contains(c),
        forall|d: usize| d < c ==> forb.contains(d),
    ensures
        lowest_free(forb) == c,
{
    let l = lowest_free(forb);
    assert(!forb.contains(l) && forall|d: usize| d < l ==> forb.contains(d));
    if l < c {
        assert(forb.contains(l));
    }
    if c < l {
        assert(forb.contains(c));
    }
}

/// Each round keeps the coloring proper and colors one more node, so after
/// as many rounds as there are nodes every node is colored.
proof fn lemma_color_steps<N: ConflictCmp>(nodes: Seq<N>, steps: nat)
    requires
        steps <= nodes.len(),
        nodes.len() < usize::MAX,
    ensures
        proper(nodes, color_steps(nodes, steps).0, color_steps(nodes, steps).1),
        colored(color_steps(nodes, steps).0).finite(),
        colored(color_steps(nodes, steps).0).len() == steps,
        color_steps(nodes, steps).1 <= steps,
    decreases steps,
{
    let n = nodes.len();
    if steps == 0 {
        assert(colored(color_steps(nodes, 0).0) =~= Set::empty());
    } else {
        lemma_color_steps(nodes, (steps - 1) as nat);
        let (colors, k) = color_steps(nodes, (steps - 1) as nat);
        let done = colored(colors);
        if forall|j: int| 0 <= j < n ==> colors[j] != UNCOLORED {
            assert(done =~= vstd::set_lib::set_int_range(0, n as int));
            vstd::set_lib::lemma_int_range(0, n as int);
            assert(false);
        }
        lemma_pick_below(nodes, colors, n);
        let i = pick_below(nodes, colors, n)->0;
        let forb = forbidden(nodes, colors, i);
        if forb.contains(k as usize) {
            let j = choose|j: int|
                0 <= j < nodes.len() && linked(nodes, i, j) && #[trigger] colors[j] == k as usize;
            assert(colors[j] < k);
        }
        lemma_lowest_free(forb, k as usize);
        let c = lowest_free(forb);
        let (colors2, k2) = color_steps(nodes, steps);
        assert(colors2 == colors.update(i, c));
        assert(c <= k);
        assert(colored(colors2) =~= done.insert(i));
        assert forall|a: int, b: int|
            0 <= a < n && 0 <= b < n && linked(nodes, a, b) && colors2[a] != UNCOLORED
                && colors2[b] != UNCOLORED implies #[trigger] colors2[a] != #[trigger] colors2[b] by {
            if a == i && b != i {
                assert(forb.contains(colors[b]));
            } else if b == i && a != i {
                assert(linked(nodes, b, a));
                assert(forb.contains(colors[a]));
            }
        }
        assert forall|d: nat| d < k2 implies #[trigger] color_used(colors2, d) by {
            if d == c {
                assert(colors2[i] == d);
            } else {
                assert(color_used(colors, d));
                let j = choose|j: int| 0 <= j < colors.len() && colors[j] == d;
                if j == i {
                    assert(false);
                }
                assert(colors2[j] == d);
            }
        }
    }
}


/// The nodes at positions below `p` split by color into `k` groups, each
/// group in insertion order.
pub open spec fn grouped<N>(nodes: Seq<N>, colors: Seq<usize>, k: nat, p: nat) -> Seq<Seq<N>>
    decreases p,
{
    if p == 0 {
        Seq::new(k, |c: int| Seq::<N>::empty())
    } else {
        let g = grouped(nodes, colors, k, (p - 1) as nat);
        let c = colors[p - 1] as int;
        g.update(c, g[c].push(nodes[p - 1]))
    }
}

/// The positions behind `grouped`: which node stands at each place.
pub open spec fn group_positions(colors: Seq<usize>, k: nat, p: nat) -> Seq<Seq<int>>
    decreases p,
{
    if p == 0 {
        Seq::new(k, |c: int| Seq::<int>::empty())
    } else {
        let g = group_positions(colors, k, (p - 1) as nat);
        let c = colors[p - 1] as int;
        g.update(c, g[c].push(p - 1))
    }
}

/// The groups that `cliques` returns: one per color, in color order.
pub open spec fn spec_cliques<N: ConflictCmp>(nodes: Seq<N>) -> Seq<Seq<N>> {
    grouped(nodes, coloring(nodes), color_count(nodes), nodes.len())
}

/// Every node of every group, counted with multiplicity.
pub open spec fn groups_multiset<N>(groups: Seq<Seq<N>>) -> Multiset<N>
    decreases groups.len(),
{
    if groups.len() == 0 {
        Multiset::empty()
    } else {
        groups_multiset(groups.drop_last()).add(groups.last().to_multiset())
    }
}

proof fn lemma_groups_multiset_empty<N>(k: nat)
    ensures
        groups_multiset(Seq::new(k, |c: int| Seq::<N>::empty())) == Multiset::<N>::empty(),
    decreases k,
{
    if k > 0 {
        let g = Seq::new(k, |c: int| Seq::<N>::empty());
        lemma_groups_multiset_empty::<N>((k - 1) as nat);
        assert(g.drop_last() =~= Seq::new((k - 1) as nat, |c: int| Seq::<N>::empty()));
        assert(g.last().to_multiset() =~= Multiset::<N>::empty()) by {
            broadcast use vstd::seq_lib::group_to_multiset_ensures;
        }
        assert(groups_multiset(g) =~= Multiset::<N>::empty());
    }
}

/// Adding a node to one group adds it to the union.
proof fn lemma_groups_multiset_push<N>(groups: Seq<Seq<N>>, c: int, x: N)
    requires
        0 <= c < groups.len(),
    ensures
        groups_multiset(groups.update(c, groups[c].push(x))) == groups_multiset(groups).insert(x),
    decreases groups.len(),
{
    broadcast use vstd::seq_lib::group_to_multiset_ensures;

    let g2 = groups.update(c, groups[c].push(x));
    if c == groups.len() - 1 {
        assert(g2.drop_last() =~= groups.drop_last());
        assert(g2.last().to_multiset() =~= groups.last().to_multiset().insert(x));
        assert(groups_multiset(g2) =~= groups_multiset(groups).insert(x));
    } else {
        lemma_groups_multiset_push(groups.drop_last(), c, x);
        assert(g2.drop_last() =~= groups.drop_last().update(c, groups[c].push(x)));
        assert(groups_multiset(g2) =~= groups_multiset(groups).insert(x));
    }
}

/// What `grouped` holds, for a coloring in which every node has a color
/// below `k`.
proof fn lemma_grouped<N>(nodes: Seq<N>, colors: Seq<usize>, k: nat, p: nat)
    requires
        p <= nodes.len(),
        colors.len() == nodes.len(),
        forall|j: int| 0 <= j < colors.len() ==> #[trigger] colors[j] < k,
    ensures
        grouped(nodes, colors, k, p).len() == k,
        group_positions(colors, k, p).len() == k,
        forall|c: int|
            0 <= c < k ==> (#[trigger] grouped(nodes, colors, k, p)[c]).len() == group_positions(
                colors,
                k,
                p,
            )[c].len(),
        forall|c: int, a: int|
            0 <= c < k && 0 <= a < grouped(nodes, colors, k, p)[c].len() ==> {
                let j = #[trigger] group_positions(colors, k, p)[c][a];
                &&& 0 <= j < p
                &&& colors[j] == c
                &&& grouped(nodes, colors, k, p)[c][a] == nodes[j]
            },
        forall|c: int, a: int, b: int|
            0 <= c < k && 0 <= a < b < group_positions(colors, k, p)[c].len() ==> #[trigger] group_positions(
                colors,
                k,
                p,
            )[c][a] < #[trigger] group_positions(colors, k, p)[c][b],
        forall|j: int|
            0 <= j < p ==> grouped(nodes, colors, k, p)[#[trigger] colors[j] as int].len() > 0,
        groups_multiset(grouped(nodes, colors, k, p)) == nodes.subrange(0, p as int).to_multiset(),
    decreases p,
{
    broadcast use vstd::seq_lib::group_to_multiset_ensures;

    if p == 0 {
        lemma_groups_multiset_empty::<N>(k);
        assert(nodes.subrange(0, 0) =~= Seq::<N>::empty());
    } else {
        let q = (p - 1) as nat;
        lemma_grouped(nodes, colors, k, q);
        let g = grouped(nodes, colors, k, q);
        let c = colors[q as int] as int;
        lemma_groups_multiset_push(g, c, nodes[q as int]);
        assert(nodes.subrange(0, p as int) =~= nodes.subrange(0, q as int).push(nodes[q as int]));
        assert forall|c2: int, a: int, b: int|
            0 <= c2 < k && 0 <= a < b < group_positions(colors, k, p)[c2].len() implies #[trigger] group_positions(
            colors,
            k,
            p,
        )[c2][a] < #[trigger] group_positions(colors, k, p)[c2][b] by {
            if c2 == c && b == group_positions(colors, k, q)[c2].len() {
                let j = group_positions(colors, k, q)[c2][a];
                assert(j < q);
            }
        }
    }
}

/// The coloring separates conflicting nodes: two distinct nodes for which
/// the conflict predicate holds get different colors, and every node gets
/// one of the colors counted by `color_count`.
pub proof fn lemma_coloring_separates_conflicts<N: ConflictCmp>(nodes: Seq<N>)
    requires
        nodes.len() < usize::MAX,
    ensures
        coloring(nodes).len() == nodes.len(),
        forall|i: int|
            0 <= i < nodes.len() ==> #[trigger] coloring(nodes)[i] < color_count(nodes),
        forall|i: int, j: int|
            0 <= i < nodes.len() && 0 <= j < nodes.len() && i != j && nodes[i].conflicts(&nodes[j])
                ==> #[trigger] coloring(nodes)[i] != #[trigger] coloring(nodes)[j],
        color_count(nodes) <= nodes.len(),
{
    let n = nodes.len();
    lemma_color_steps(nodes, n);
    let colors = coloring(nodes);
    let range = vstd::set_lib::set_int_range(0, n as int);
    vstd::set_lib::lemma_int_range(0, n as int);
    assert(colored(colors).subset_of(range));
    vstd::set_lib::lemma_subset_equality(colored(colors), range);
    assert forall|i: int| 0 <= i < n implies #[trigger] colors[i] < color_count(nodes) by {
        assert(range.contains(i));
    }
    assert forall|i: int, j: int|
        0 <= i < n && 0 <= j < n && i != j && nodes[i].conflicts(&nodes[j]) implies #[trigger] colors[i]
        != #[trigger] colors[j] by {
        assert(range.contains(i));
        assert(range.contains(j));
        assert(linked(nodes, i, j));
    }
}

/// No node is lost or duplicated: the groups together hold exactly the
/// inserted nodes.
pub proof fn lemma_cliques_keep_every_node<N: ConflictCmp>(nodes: Seq<N>)
    requires
        nodes.len() < usize::MAX,
    ensures
        groups_multiset(spec_cliques(nodes)) == nodes.to_multiset(),
{
    lemma_coloring_separates_conflicts(nodes);
    lemma_grouped(nodes, coloring(nodes), color_count(nodes), nodes.len());
    assert(nodes.subrange(0, nodes.len() as int) =~= nodes);
}

/// Nodes of one group never conflict, and no group is empty.
pub proof fn lemma_cliques_conflict_free<N: ConflictCmp>(nodes: Seq<N>)
    requires
        nodes.len() < usize::MAX,
    ensures
        spec_cliques(nodes).len() == color_count(nodes),
        forall|c: int|
            0 <= c < spec_cliques(nodes).len() ==> (#[trigger] spec_cliques(nodes)[c]).len() > 0,
        forall|c: int, a: int, b: int|
            #![trigger spec_cliques(nodes)[c][a], spec_cliques(nodes)[c][b]]
            0 <= c < spec_cliques(nodes).len() && 0 <= a < spec_cliques(nodes)[c].len() && 0 <= b
                < spec_cliques(nodes)[c].len() && a != b ==> !spec_cliques(nodes)[c][a].conflicts(
                &spec_cliques(nodes)[c][b],
            ),
{
    let colors = coloring(nodes);
    let k = color_count(nodes);
    lemma_coloring_separates_conflicts(nodes);
    lemma_grouped(nodes, colors, k, nodes.len());
    lemma_color_steps(nodes, nodes.len());
    let g = spec_cliques(nodes);
    let pos = group_positions(colors, k, nodes.len());
    assert forall|c: int| 0 <= c < g.len() implies (#[trigger] g[c]).len() > 0 by {
        assert(color_used(colors, c as nat));
        let j = choose|j: int| 0 <= j < colors.len() && colors[j] == c;
        assert(g[colors[j] as int].len() > 0);
    }
    assert forall|c: int, a: int, b: int|
        #![trigger g[c][a], g[c][b]]
        0 <= c < g.len() && 0 <= a < g[c].len() && 0 <= b < g[c].len() && a != b implies !g[c][a].conflicts(
        &g[c][b],
    ) by {
        let ja = pos[c][a];
        let jb = pos[c][b];
        if a < b {
            assert(pos[c][a] < pos[c][b]);
        } else {
            assert(pos[c][b] < pos[c][a]);
        }
        assert(colors[ja] == colors[jb]);
    }
}

/// A set of nodes that supports insertion only; consumed by `cliques`.
#[derive(Debug, Clone)]
pub struct ConflictGraph<N> {
    nodes: SparseSet<N>,
}

impl<N: ConflictCmp> View for ConflictGraph<N> {
    type V = Seq<N>;

    /// The nodes in insertion order.
    closed spec fn view(&self) -> Seq<N> {
        self.nodes.values()
    }
}

impl<N: ConflictCmp> ConflictGraph<N> {
    pub closed spec fn wf(&self) -> bool {
        &&& self.nodes.wf()
        &&& self.nodes.values().len() < usize::MAX
    }

    pub fn new() -> (g: Self)
        ensures
            g.wf(),
            g@ == Seq::<N>::empty(),
    {
        ConflictGraph { nodes: SparseSet::new() }
    }

    /// Adds a node. Edges are computed later, by `cliques`.
    pub fn insert(&mut self, node: N) -> (r: Result<(), ConflictGraphError>)
        requires
            old(self).wf(),
            old(self)@.len() + 1 < usize::MAX,
        ensures
            final(self).wf(),
            final(self)@ == old(self)@.push(node),
            r == Ok::<(), ConflictGraphError>(()),
    {
        proof {
            self.nodes.lemma_layout();
        }
        let _key = self.nodes.insert(node);
        Ok(())
    }


    /// The matrix of `adj` as nested sequences.
    spec fn matrix(adj: &Vec<Vec<bool>>) -> Seq<Seq<bool>> {
        adj@.map_values(|row: Vec<bool>| row@)
    }

    /// Looks at the neighbors of node `i`: returns its saturation, its
    /// number of uncolored neighbors, and which of the colors `0..used`
    /// its neighbors hold.
    fn scan_neighbors(&self, adj: &Vec<Vec<bool>>, colors: &Vec<usize>, used: usize, i: usize) -> (r: (
        usize,
        usize,
        Vec<bool>,
    ))
        requires
            self.wf(),
            is_adjacency(self@, Self::matrix(adj)),
            colors@.len() == self@.len(),
            i < self@.len(),
            forall|j: int| 0 <= j < colors@.len() ==> #[trigger] colors@[j] == UNCOLORED || colors@[j] < used,
        ensures
            r.0 == saturation(self@, colors@, i as int),
            r.1 == waiting(self@, colors@, i as int),
            r.2@.len() == used,
            forall|c: usize|
                c < used ==> #[trigger] r.2@[c as int] == forbidden(self@, colors@, i as int).contains(c),
            forall|c: usize| #[trigger] forbidden(self@, colors@, i as int).contains(c) ==> c < used,
    {
        let ghost nodes = self@;
        let ghost cs = colors@;
        let n = colors.len();
        let mut seen: Vec<bool> = Vec::new();
        while seen.len() < used
            invariant
                seen@.len() <= used,
                forall|c: int| 0 <= c < seen@.len() ==> !#[trigger] seen@[c],
            decreases used - seen@.len(),
        {
            seen.push(false);
        }
        let mut sat: usize = 0;
        let mut unc: usize = 0;
        let mut j: usize = 0;
        assert(forbidden_below(nodes, cs, i as int, 0) =~= Set::empty());
        assert(waiting_below(nodes, cs, i as int, 0) =~= Set::empty());
        while j < n
            invariant
                nodes == self@,
                cs == colors@,
                n == cs.len(),
                n == nodes.len(),
                i < n,
                is_adjacency(nodes, Self::matrix(adj)),
                forall|a: int| 0 <= a < n ==> #[trigger] cs[a] == UNCOLORED || cs[a] < used,
                j <= n,
                seen@.len() == used,
                forall|c: usize|
                    c < used ==> #[trigger] seen@[c as int] == forbidden_below(nodes, cs, i as int, j as int).contains(c),
                forall|c: usize|
                    #[trigger] forbidden_below(nodes, cs, i as int, j as int).contains(c) ==> c < used,
                forbidden_below(nodes, cs, i as int, j as int).finite(),
                sat == forbidden_below(nodes, cs, i as int, j as int).len(),
                waiting_below(nodes, cs, i as int, j as int).finite(),
                unc == waiting_below(nodes, cs, i as int, j as int).len(),
                sat <= j,
                unc <= j,
            decreases n - j,
        {
            let ghost fb = forbidden_below(nodes, cs, i as int, j as int);
            let ghost wb = waiting_below(nodes, cs, i as int, j as int);
            assert(adj@[i as int]@[j as int] == Self::matrix(adj)[i as int][j as int]);
            if adj[i][j] {
                let cj = colors[j];
                if cj == UNCOLORED {
                    unc = unc + 1;
                    assert(waiting_below(nodes, cs, i as int, j + 1) =~= wb.insert(j as int));
                    assert(forbidden_below(nodes, cs, i as int, j + 1) =~= fb);
                } else if !seen[cj] {
                    seen.set(cj, true);
                    sat = sat + 1;
                    assert(waiting_below(nodes, cs, i as int, j + 1) =~= wb);
                    assert(forbidden_below(nodes, cs, i as int, j + 1) =~= fb.insert(cj));
                } else {
                    assert(waiting_below(nodes, cs, i as int, j + 1) =~= wb);
                    assert(forbidden_below(nodes, cs, i as int, j + 1) =~= fb);
                }
            } else {
                assert(waiting_below(nodes, cs, i as int, j + 1) =~= wb);
                assert(forbidden_below(nodes, cs, i as int, j + 1) =~= fb);
            }
            j = j + 1;
        }
        (sat, unc, seen)
    }


    /// Colors the graph: each round picks the uncolored node with the most
    /// distinct neighbor colors, ties going to the one with the most
    /// uncolored neighbors and then to the lowest position, and gives it the
    /// lowest color that none of its neighbors holds. Returns the colors and
    /// the number of colors used.
    fn color(&self, adj: &Vec<Vec<bool>>) -> (r: (Vec<usize>, usize))
        requires
            self.wf(),
            is_adjacency(self@, Self::matrix(adj)),
        ensures
            r.0@ == coloring(self@),
            r.1 == color_count(self@),
    {
        let ghost nodes = self@;
        let n = self.nodes.as_slice().len();
        let mut colors: Vec<usize> = Vec::new();
        while colors.len() < n
            invariant
                n == nodes.len(),
                colors@.len() <= n,
                forall|a: int| 0 <= a < colors@.len() ==> #[trigger] colors@[a] == UNCOLORED,
            decreases n - colors@.len(),
        {
            colors.push(UNCOLORED);
        }
        assert(colors@ =~= color_steps(nodes, 0).0);
        let mut used: usize = 0;
        let mut step: usize = 0;
        while step < n
            invariant
                nodes == self@,
                self.wf(),
                n == nodes.len(),
                n < usize::MAX,
                is_adjacency(nodes, Self::matrix(adj)),
                step <= n,
                colors@ == color_steps(nodes, step as nat).0,
                used == color_steps(nodes, step as nat).1,
            decreases n - step,
        {
            proof {
                lemma_color_steps(nodes, step as nat);
            }
            let ghost cs = colors@;
            assert(forall|j: int| 0 <= j < n ==> #[trigger] cs[j] == UNCOLORED || cs[j] < used);
            // pick the node to color
            let mut best: usize = n;
            let mut best_sat: usize = 0;
            let mut best_unc: usize = 0;
            let mut i: usize = 0;
            while i < n
                invariant
                    nodes == self@,
                    self.wf(),
                    n == nodes.len(),
                    cs == colors@,
                    cs.len() == n,
                    is_adjacency(nodes, Self::matrix(adj)),
                    forall|j: int| 0 <= j < n ==> #[trigger] cs[j] == UNCOLORED || cs[j] < used,
                    i <= n,
                    best == n <==> pick_below(nodes, cs, i as nat) is None,
                    best != n ==> {
                        &&& pick_below(nodes, cs, i as nat) == Some(best as int)
                        &&& best_sat == saturation(nodes, cs, best as int)
                        &&& best_unc == waiting(nodes, cs, best as int)
                    },
                decreases n - i,
            {
                proof {
                    lemma_pick_below(nodes, cs, i as nat);
                }
                if colors[i] == UNCOLORED {
                    let (sat, unc, _) = self.scan_neighbors(adj, &colors, used, i);
                    if best == n || sat > best_sat || (sat == best_sat && unc > best_unc) {
                        best = i;
                        best_sat = sat;
                        best_unc = unc;
                    }
                }
                i = i + 1;
            }
            proof {
                lemma_pick_below(nodes, cs, n as nat);
                if best == n {
                    let range = vstd::set_lib::set_int_range(0, n as int);
                    vstd::set_lib::lemma_int_range(0, n as int);
                    assert(colored(cs) =~= range);
                }
            }
            // the lowest color that no neighbor holds
            let (_, _, seen) = self.scan_neighbors(adj, &colors, used, best);
            let ghost forb = forbidden(nodes, cs, best as int);
            let mut c: usize = 0;
            while c < used && seen[c]
                invariant
                    seen@.len() == used,
                    c <= used,
                    forall|d: usize| d < c ==> forb.contains(d),
                    forall|d: usize| d < used ==> #[trigger] seen@[d as int] == forb.contains(d),
                decreases used - c,
            {
                c = c + 1;
            }
            proof {
                lemma_lowest_free_unique(forb, c);
            }
            colors.set(best, c);
            if c == used {
                used = used + 1;
            }
            step = step + 1;
        }
        (colors, used)
    }


    /// Confirms that every node is colored and that no two nodes for which
    /// the conflict predicate holds share a color.
    fn check(&self, colors: &Vec<usize>) -> (r: Result<(), ConflictGraphError>)
        requires
            self.wf(),
            colors@.len() == self@.len(),
        ensures
            r is Ok <==> {
                &&& forall|i: int| 0 <= i < colors@.len() ==> #[trigger] colors@[i] != UNCOLORED
                &&& forall|i: int, j: int|
                    0 <= i < colors@.len() && 0 <= j < colors@.len() && i != j && self@[i].conflicts(
                        &self@[j],
                    ) ==> #[trigger] colors@[i] != #[trigger] colors@[j]
            },
            r == Err::<(), ConflictGraphError>(ConflictGraphError::UncoloredNode) ==> exists|i: int|
                0 <= i < colors@.len() && #[trigger] colors@[i] == UNCOLORED,
            r == Err::<(), ConflictGraphError>(ConflictGraphError::UnresolvedConflict) ==> exists|
                i: int,
                j: int,
            |
                0 <= i < colors@.len() && 0 <= j < colors@.len() && i != j && self@[i].conflicts(
                    &self@[j],
                ) && #[trigger] colors@[i] == #[trigger] colors@[j],
            r is Err ==> r == Err::<(), ConflictGraphError>(ConflictGraphError::UncoloredNode) || r
                == Err::<(), ConflictGraphError>(ConflictGraphError::UnresolvedConflict),
    {
        let nodes = self.nodes.as_slice();
        let n = nodes.len();
        let mut i: usize = 0;
        while i < n
            invariant
                nodes@ == self@,
                n == nodes@.len(),
                colors@.len() == n,
                i <= n,
                forall|a: int| 0 <= a < i ==> #[trigger] colors@[a] != UNCOLORED,
            decreases n - i,
        {
            if colors[i] == UNCOLORED {
                return Err(ConflictGraphError::UncoloredNode);
            }
            i = i + 1;
        }
        let mut i: usize = 0;
        while i < n
            invariant
                nodes@ == self@,
                n == nodes@.len(),
                colors@.len() == n,
                i <= n,
                forall|a: int| 0 <= a < n ==> #[trigger] colors@[a] != UNCOLORED,
                forall|a: int, b: int|
                    0 <= a < i && 0 <= b < n && a != b && self@[a].conflicts(&self@[b])
                        ==> #[trigger] colors@[a] != #[trigger] colors@[b],
            decreases n - i,
        {
            let mut j: usize = 0;
            while j < n
                invariant
                    nodes@ == self@,
                    n == nodes@.len(),
                    colors@.len() == n,
                    i < n,
                    j <= n,
                    forall|a: int| 0 <= a < n ==> #[trigger] colors@[a] != UNCOLORED,
                    forall|a: int, b: int|
                        0 <= a < i && 0 <= b < n && a != b && self@[a].conflicts(&self@[b])
                            ==> #[trigger] colors@[a] != #[trigger] colors@[b],
                    forall|b: int|
                        0 <= b < j && i != b && self@[i as int].conflicts(&self@[b])
                            ==> colors@[i as int] != #[trigger] colors@[b],
                decreases n - j,
            {
                if i != j && nodes[i].conflict_cmp(&nodes[j]) && colors[i] == colors[j] {
                    return Err(ConflictGraphError::UnresolvedConflict);
                }
                j = j + 1;
            }
            i = i + 1;
        }
        Ok(())
    }

    /// Splits the nodes into one group per color, each group in insertion
    /// order.
    fn partition(self, colors: &Vec<usize>, k: usize) -> (groups: Vec<Vec<N>>)
        requires
            self.wf(),
            colors@.len() == self@.len(),
            forall|j: int| 0 <= j < colors@.len() ==> #[trigger] colors@[j] < k,
        ensures
            groups@.map_values(|g: Vec<N>| g@) == grouped(self@, colors@, k as nat, self@.len()),
    {
        let ghost nodes = self@;
        let n = self.nodes.as_slice().len();
        let mut rest = self.nodes.into_values();
        let mut reversed: Vec<N> = Vec::new();
        while rest.len() > 0
            invariant
                n == nodes.len(),
                rest@.len() <= n,
                rest@ == nodes.subrange(0, rest@.len() as int),
                reversed@.len() == n - rest@.len(),
                forall|t: int| 0 <= t < reversed@.len() ==> #[trigger] reversed@[t] == nodes[n - 1 - t],
            decreases rest@.len(),
        {
            match rest.pop() {
                Some(node) => reversed.push(node),
                None => {},
            }
            assert(rest@ =~= nodes.subrange(0, rest@.len() as int));
        }
        let mut groups: Vec<Vec<N>> = Vec::new();
        while groups.len() < k
            invariant
                groups@.len() <= k,
                forall|c: int| 0 <= c < groups@.len() ==> (#[trigger] groups@[c])@ == Seq::<N>::empty(),
            decreases k - groups@.len(),
        {
            groups.push(Vec::new());
        }
        assert(groups@.map_values(|g: Vec<N>| g@) =~= grouped(nodes, colors@, k as nat, 0));
        let mut p: usize = 0;
        while reversed.len() > 0
            invariant
                n == nodes.len(),
                colors@.len() == n,
                forall|j: int| 0 <= j < colors@.len() ==> #[trigger] colors@[j] < k,
                p <= n,
                reversed@.len() == n - p,
                forall|t: int| 0 <= t < reversed@.len() ==> #[trigger] reversed@[t] == nodes[n - 1 - t],
                groups@.len() == k,
                groups@.map_values(|g: Vec<N>| g@) == grouped(nodes, colors@, k as nat, p as nat),
            decreases reversed@.len(),
        {
            let ghost before = groups@.map_values(|g: Vec<N>| g@);
            match reversed.pop() {
                Some(node) => {
                    let c = colors[p];
                    assert(node == nodes[p as int]);
                    groups[c].push(node);
                    assert(groups@.map_values(|g: Vec<N>| g@) =~= before.update(
                        c as int,
                        before[c as int].push(nodes[p as int]),
                    ));
                },
                None => {},
            }
            p = p + 1;
        }
        groups
    }

    /// Consumes the graph and returns groups of mutually conflict-free
    /// nodes, one group per color.
    ///
    /// Edges are rebuilt from scratch, the graph is colored with the
    /// saturation heuristic, the coloring is checked, and the nodes are
    /// grouped by color. Two nodes of one group never conflict; nodes of
    /// different groups may or may not. Every inserted node lands in exactly
    /// one group.
    pub fn cliques(self) -> (r: Result<Vec<Vec<N>>, ConflictGraphError>)
        requires
            self.wf(),
        ensures
            match r {
                Ok(groups) => {
                    let gs = groups@.map_values(|g: Vec<N>| g@);
                    &&& gs == spec_cliques(self@)
                    &&& groups_multiset(gs) == self@.to_multiset()
                    &&& forall|c: int| 0 <= c < gs.len() ==> (#[trigger] gs[c]).len() > 0
                    &&& forall|c: int, a: int, b: int|
                        #![trigger gs[c][a], gs[c][b]]
                        0 <= c < gs.len() && 0 <= a < gs[c].len() && 0 <= b < gs[c].len() && a != b
                            ==> !gs[c][a].conflicts(&gs[c][b])
                },
                Err(_) => false,
            },
    {
        let ghost nodes = self@;
        proof {
            lemma_cliques_keep_every_node(nodes);
            lemma_cliques_conflict_free(nodes);
        }
        let adj = self.rebuild();
        let (colors, used) = self.color(&adj);
        proof {
            lemma_coloring_separates_conflicts(nodes);
        }
        match self.check(&colors) {
            Ok(()) => {},
            Err(e) => {
                return Err(e);
            },
        }
        Ok(self.partition(&colors, used))
    }

    /// The adjacency matrix: `adj[i][j]` when nodes `i` and `j` conflict.
    fn rebuild(&self) -> (adj: Vec<Vec<bool>>)
        requires
            self.wf(),
        ensures
            is_adjacency(self@, Self::matrix(&adj)),
    {
        let nodes = self.nodes.as_slice();
        let n = nodes.len();
        let mut adj: Vec<Vec<bool>> = Vec::new();
        let mut i: usize = 0;
        while i < n
            invariant
                nodes@ == self@,
                n == nodes@.len(),
                i <= n,
                adj@.len() == i,
                forall|a: int| 0 <= a < i ==> (#[trigger] adj@[a])@.len() == n,
                forall|a: int, b: int|
                    0 <= a < i && 0 <= b < n ==> #[trigger] adj@[a]@[b] == linked(self@, a, b),
            decreases n - i,
        {
            let mut row: Vec<bool> = Vec::new();
            let mut j: usize = 0;
            while j < n
                invariant
                    nodes@ == self@,
                    n == nodes@.len(),
                    i < n,
                    j <= n,
                    row@.len() == j,
                    forall|b: int| 0 <= b < j ==> #[trigger] row@[b] == linked(self@, i as int, b),
                decreases n - j,
            {
                let conflict = i != j && (nodes[i].conflict_cmp(&nodes[j]) || nodes[j].conflict_cmp(
                    &nodes[i],
                ));
                row.push(conflict);
                j = j + 1;
            }
            adj.push(row);
            i = i + 1;
        }
        proof {
            let view = adj@.map_values(|row: Vec<bool>| row@);
            assert forall|a: int, b: int|
                0 <= a < n && 0 <= b < n implies #[trigger] view[a][b] == linked(self@, a, b) by {
                assert(view[a] == adj@[a]@);
            }
        }
        adj
    }
}

} // verus!
