//! Declaring what a unit of work reads, writes and excludes, and planning
//! the iteration over the data sets it asks for.

use vstd::prelude::*;

use crate::components::ComponentSetId;

verus! {

/// Precedence of the cheap, exclusionary filters: evaluated first.
pub const PRECEDENCE_FIRST: usize = 10;

/// Precedence of the exclusion filters.
pub const PRECEDENCE_EXCLUDE: usize = 20;

/// Precedence of the access declarations: the expensive set lookups,
/// evaluated last.
pub const PRECEDENCE_ACCESS: usize = 1000;

/// A point in space, each coordinate held as the IEEE-754 bit pattern of a
/// 64-bit float.
#[derive(Debug, Clone, Copy, PartialEq, Eq, Structural)]
pub struct SpatialPoint {
    pub x: u64,
    pub y: u64,
    pub z: u64,
}

/// One clause of a query. Spatial filters carry the IEEE-754 bit pattern of
/// a distance and a point.
#[derive(Debug, Clone, Copy, PartialEq, Eq, Structural)]
pub enum QueryFilter {
    /// Rejects all entities if none of their given component has changed.
    ComponentAnyChanged(ComponentSetId),
    /// Passes only entities whose given component changed since the last
    /// query of this unit.
    ComponentChanged(ComponentSetId),
    /// Passes entities with the given component, with read access to it.
    ComponentAccess(ComponentSetId),
    /// Passes entities with the given component, with write access to it.
    ComponentWrite(ComponentSetId),
    /// Rejects entities with the given component.
    ComponentNot(ComponentSetId),
    /// Rejects entities further than a distance from a point.
    SpatialCloserThan(u64, SpatialPoint),
    /// Rejects entities closer than a distance to a point.
    SpatialFurtherThan(u64, SpatialPoint),
}

pub open spec fn spec_precedence(f: QueryFilter) -> usize {
    match f {
        QueryFilter::ComponentAnyChanged(_) => PRECEDENCE_FIRST,
        QueryFilter::ComponentChanged(_) => PRECEDENCE_FIRST,
        QueryFilter::SpatialCloserThan(_, _) => PRECEDENCE_FIRST,
        QueryFilter::SpatialFurtherThan(_, _) => PRECEDENCE_FIRST,
        QueryFilter::ComponentNot(_) => PRECEDENCE_EXCLUDE,
        QueryFilter::ComponentWrite(_) => PRECEDENCE_ACCESS,
        QueryFilter::ComponentAccess(_) => PRECEDENCE_ACCESS,
    }
}

/// The filters of `fs` with precedence `p`, in their order.
pub open spec fn class_of(fs: Seq<QueryFilter>, p: usize) -> Seq<QueryFilter> {
    fs.filter(|f: QueryFilter| spec_precedence(f) == p)
}

/// `fs` stably sorted by precedence.
pub open spec fn sorted_filters(fs: Seq<QueryFilter>) -> Seq<QueryFilter> {
    class_of(fs, PRECEDENCE_FIRST) + class_of(fs, PRECEDENCE_EXCLUDE) + class_of(
        fs,
        PRECEDENCE_ACCESS,
    )
}

/// `fs` sorted, then cut before the first access declaration.
pub open spec fn pruned_filters(fs: Seq<QueryFilter>) -> Seq<QueryFilter> {
    class_of(fs, PRECEDENCE_FIRST) + class_of(fs, PRECEDENCE_EXCLUDE)
}

impl QueryFilter {
    /// Lower values are evaluated first.
    pub fn precedence(&self) -> (r: usize)
        ensures
            r == spec_precedence(*self),
    {
        match self {
            QueryFilter::ComponentAnyChanged(_) => PRECEDENCE_FIRST,
            QueryFilter::ComponentChanged(_) => PRECEDENCE_FIRST,
            QueryFilter::SpatialCloserThan(_, _) => PRECEDENCE_FIRST,
            QueryFilter::SpatialFurtherThan(_, _) => PRECEDENCE_FIRST,
            QueryFilter::ComponentNot(_) => PRECEDENCE_EXCLUDE,
            QueryFilter::ComponentWrite(_) => PRECEDENCE_ACCESS,
            QueryFilter::ComponentAccess(_) => PRECEDENCE_ACCESS,
        }
    }

    /// An access or write declaration.
    pub fn is_access(&self) -> (r: bool)
        ensures
            r == (spec_precedence(*self) == PRECEDENCE_ACCESS),
    {
        match self {
            QueryFilter::ComponentAccess(_) => true,
            QueryFilter::ComponentWrite(_) => true,
            _ => false,
        }
    }
}

/// Every filter that `class_of` keeps has that precedence.
proof fn lemma_class_of(fs: Seq<QueryFilter>, p: usize)
    ensures
        forall|i: int|
            0 <= i < class_of(fs, p).len() ==> spec_precedence(#[trigger] class_of(fs, p)[i]) == p,
{
    broadcast use vstd::seq_lib::group_filter_ensures;

    assert(forall|i: int|
        0 <= i < class_of(fs, p).len() ==> spec_precedence(#[trigger] class_of(fs, p)[i]) == p);
}

/// Appends the filters of `fs` with precedence `p`.
fn push_class(out: &mut Vec<QueryFilter>, fs: &Vec<QueryFilter>, p: usize)
    ensures
        final(out)@ == old(out)@ + class_of(fs@, p),
{
    let mut i: usize = 0;
    while i < fs.len()
        invariant
            i <= fs@.len(),
            out@ == old(out)@ + class_of(fs@.subrange(0, i as int), p),
        decreases fs@.len() - i,
    {
        let f = fs[i];
        proof {
            assert(fs@.subrange(0, i + 1) =~= fs@.subrange(0, i as int).push(f));
            fs@.subrange(0, i as int).lemma_filter_push(f, |g: QueryFilter| spec_precedence(g) == p);
        }
        if f.precedence() == p {
            out.push(f);
        }
        assert(out@ =~= old(out)@ + class_of(fs@.subrange(0, i + 1), p));
        i = i + 1;
    }
    assert(fs@.subrange(0, fs@.len() as int) =~= fs@);
}

/// `fs` stably sorted by precedence.
fn sort_by_precedence(fs: &Vec<QueryFilter>) -> (r: Vec<QueryFilter>)
    ensures
        r@ == sorted_filters(fs@),
{
    let mut out: Vec<QueryFilter> = Vec::new();
    push_class(&mut out, fs, PRECEDENCE_FIRST);
    push_class(&mut out, fs, PRECEDENCE_EXCLUDE);
    push_class(&mut out, fs, PRECEDENCE_ACCESS);
    assert(out@ =~= sorted_filters(fs@));
    out
}

/// Accumulates the declarations of a query, in any order.
pub struct QueryBuilder {
    filter_set: Vec<QueryFilter>,
    components: Vec<ComponentSetId>,
}

impl View for QueryBuilder {
    type V = (Seq<QueryFilter>, Seq<ComponentSetId>);

    /// The filters as added, and the data sets that the query reads.
    closed spec fn view(&self) -> (Seq<QueryFilter>, Seq<ComponentSetId>) {
        (self.filter_set@, self.components@)
    }
}

impl QueryBuilder {
    /// Asks for data set `component`, with read access.
    pub fn with(self, component: ComponentSetId) -> (r: Self)
        ensures
            r@.0 == self@.0.push(QueryFilter::ComponentAccess(component)),
            r@.1 == self@.1.push(component),
    {
        let mut b = self;
        b.filter_set.push(QueryFilter::ComponentAccess(component));
        b.components.push(component);
        b
    }

    /// Rejects entities that have data set `component`.
    pub fn not(self, component: ComponentSetId) -> (r: Self)
        ensures
            r@.0 == self@.0.push(QueryFilter::ComponentNot(component)),
            r@.1 == self@.1,
    {
        let mut b = self;
        b.filter_set.push(QueryFilter::ComponentNot(component));
        b
    }

    pub fn changed(self, component: ComponentSetId) -> (r: Self)
        ensures
            r@.0 == self@.0.push(QueryFilter::ComponentChanged(component)),
            r@.1 == self@.1,
    {
        let mut b = self;
        b.filter_set.push(QueryFilter::ComponentChanged(component));
        b
    }

    pub fn any_changed(self, component: ComponentSetId) -> (r: Self)
        ensures
            r@.0 == self@.0.push(QueryFilter::ComponentAnyChanged(component)),
            r@.1 == self@.1,
    {
        let mut b = self;
        b.filter_set.push(QueryFilter::ComponentAnyChanged(component));
        b
    }

    /// Rejects entities further than `max_dist` from `pos` (bit patterns).
    pub fn closer_than(self, max_dist: u64, pos: SpatialPoint) -> (r: Self)
        ensures
            r@.0 == self@.0.push(QueryFilter::SpatialCloserThan(max_dist, pos)),
            r@.1 == self@.1,
    {
        let mut b = self;
        b.filter_set.push(QueryFilter::SpatialCloserThan(max_dist, pos));
        b
    }

    /// Rejects entities closer than `min_dist` to `pos` (bit patterns).
    pub fn further_than(self, min_dist: u64, pos: SpatialPoint) -> (r: Self)
        ensures
            r@.0 == self@.0.push(QueryFilter::SpatialFurtherThan(min_dist, pos)),
            r@.1 == self@.1,
    {
        let mut b = self;
        b.filter_set.push(QueryFilter::SpatialFurtherThan(min_dist, pos));
        b
    }

    /// Orders the filters by precedence, keeping the order of filters of
    /// equal precedence: spatial and change filters, then exclusions, then
    /// access declarations.
    pub fn sort_filters(self) -> (r: Self)
        ensures
            r@.0 == sorted_filters(self@.0),
            r@.1 == self@.1,
    {
        let sorted = sort_by_precedence(&self.filter_set);
        QueryBuilder { filter_set: sorted, components: self.components }
    }

    /// The filters that are read.
    pub fn filters(&self) -> (r: &Vec<QueryFilter>)
        ensures
            r@ == self@.0,
    {
        &self.filter_set
    }

    /// Finalizes the query: the filters are sorted and everything from the
    /// first access declaration on is dropped, since the requested data
    /// sets already determine those.
    pub fn make(self) -> (r: Query)
        ensures
            r@.0 == self@.1,
            r@.1 == pruned_filters(self@.0),
    {
        let ghost fs = self@.0;
        let mut sorted = sort_by_precedence(&self.filter_set);
        proof {
            lemma_class_of(fs, PRECEDENCE_FIRST);
            lemma_class_of(fs, PRECEDENCE_EXCLUDE);
            lemma_class_of(fs, PRECEDENCE_ACCESS);
        }
        let ghost cut = class_of(fs, PRECEDENCE_FIRST).len() + class_of(fs, PRECEDENCE_EXCLUDE).len();
        let mut i: usize = 0;
        while i < sorted.len() && !sorted[i].is_access()
            invariant
                sorted@ == sorted_filters(fs),
                forall|j: int| 0 <= j < class_of(fs, PRECEDENCE_FIRST).len() ==> spec_precedence(
                    #[trigger] class_of(fs, PRECEDENCE_FIRST)[j],
                ) == PRECEDENCE_FIRST,
                forall|j: int| 0 <= j < class_of(fs, PRECEDENCE_EXCLUDE).len() ==> spec_precedence(
                    #[trigger] class_of(fs, PRECEDENCE_EXCLUDE)[j],
                ) == PRECEDENCE_EXCLUDE,
                forall|j: int| 0 <= j < class_of(fs, PRECEDENCE_ACCESS).len() ==> spec_precedence(
                    #[trigger] class_of(fs, PRECEDENCE_ACCESS)[j],
                ) == PRECEDENCE_ACCESS,
                cut == class_of(fs, PRECEDENCE_FIRST).len() + class_of(fs, PRECEDENCE_EXCLUDE).len(),
                i <= cut,
                cut <= sorted@.len(),
            decreases sorted@.len() - i,
        {
            proof {
                if i == cut {
                    let ab = class_of(fs, PRECEDENCE_FIRST) + class_of(fs, PRECEDENCE_EXCLUDE);
                    assert(sorted@ == ab + class_of(fs, PRECEDENCE_ACCESS));
                    assert(sorted@[cut as int] == class_of(fs, PRECEDENCE_ACCESS)[0]);
                }
            }
            i = i + 1;
        }
        proof {
            if i < cut {
                assert(spec_precedence(sorted@[i as int]) != PRECEDENCE_ACCESS);
            }
        }
        sorted.truncate(i);
        assert(sorted@ =~= pruned_filters(fs));
        Query { components: self.components, filter_set: sorted }
    }
}

/// A finalized query: the data sets it iterates and its remaining filters.
pub struct Query {
    components: Vec<ComponentSetId>,
    filter_set: Vec<QueryFilter>,
}

impl View for Query {
    type V = (Seq<ComponentSetId>, Seq<QueryFilter>);

    closed spec fn view(&self) -> (Seq<ComponentSetId>, Seq<QueryFilter>) {
        (self.components@, self.filter_set@)
    }
}

impl Query {
    /// An empty builder.
    pub fn new() -> (r: QueryBuilder)
        ensures
            r@.0 == Seq::<QueryFilter>::empty(),
            r@.1 == Seq::<ComponentSetId>::empty(),
    {
        QueryBuilder { filter_set: Vec::new(), components: Vec::new() }
    }

    pub fn components(&self) -> (r: &Vec<ComponentSetId>)
        ensures
            r@ == self@.0,
    {
        &self.components
    }

    pub fn filters(&self) -> (r: &Vec<QueryFilter>)
        ensures
            r@ == self@.1,
    {
        &self.filter_set
    }
}

/// The first position of a smallest entry of `lens`.
pub open spec fn is_driving_index(lens: Seq<usize>, i: int) -> bool {
    &&& 0 <= i < lens.len()
    &&& forall|j: int| 0 <= j < lens.len() ==> lens[i] <= #[trigger] lens[j]
    &&& forall|j: int| 0 <= j < i ==> lens[i] < #[trigger] lens[j]
}

/// Which of the requested data sets, of the given sizes, drives the
/// iteration: the first of the smallest. `None` when nothing is requested.
pub fn driving_set_index(lens: &Vec<usize>) -> (r: Option<usize>)
    ensures
        match r {
            Some(i) => is_driving_index(lens@, i as int),
            None => lens@.len() == 0,
        },
{
    if lens.len() == 0 {
        return None;
    }
    let mut best: usize = 0;
    let mut i: usize = 1;
    while i < lens.len()
        invariant
            1 <= i <= lens@.len(),
            best < i,
            forall|j: int| 0 <= j < i ==> lens@[best as int] <= #[trigger] lens@[j],
            forall|j: int| 0 <= j < best ==> lens@[best as int] < #[trigger] lens@[j],
        decreases lens@.len() - i,
    {
        if lens[i] < lens[best] {
            best = i;
        }
        i = i + 1;
    }
    Some(best)
}

} // verus!
