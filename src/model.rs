//! The set of balls model: a graph of balls where every ball caches up to two
//! neighbors, and the geometry the model is fitted in.
use vstd::prelude::*;
use crate::graph::{
    kept, lemma_kept, lemma_kept_equal, relinked, Graph, Neighbor, Vertex, in_range, lemma_rank_bounds, lemma_rank_injective, lemma_rank_onto,
    lemma_rank_strict, lemma_remap_contains, lemma_remap_no_duplicates, rank, remap, targets,
};
use crate::neighbors::{
    Neighborhood, ahead, get_neighborhood, is_neighborhood, lemma_neighborhood_exists, two_least,
};
use crate::MAX_NEIGHBORS;

verus! {

/// The geometry and arithmetic of balls over points of type `P`, supplied by
/// the user of the library.
///
/// Distances are handed over as `u64` keys whose order is the order of the
/// distances they stand for (for a non-negative `f64`, its bit pattern). Each
/// operation is a function of its arguments: the spec function beside it names
/// its result, and the fitting step is stated over those names.
pub trait Space<P, B> {
    /// The first ball of a model for `point`.
    spec fn init_spec(&self, point: P) -> B;

    /// Key of the distance from `point` to `ball`, divided by its radius.
    spec fn normalized_key_spec(&self, point: P, ball: B) -> u64;

    /// Key of the distance from the center of `from` to `to`, divided by the
    /// radius of `to`.
    spec fn ball_key_spec(&self, from: B, to: B) -> u64;

    /// Key of the distance between the centers of two balls.
    spec fn center_key_spec(&self, a: B, b: B) -> u64;

    /// Whether `point` is close enough to `ball` to be absorbed by it.
    spec fn absorbs_spec(&self, ball: B, point: P) -> bool;

    /// `ball` once it has absorbed `point`.
    spec fn absorb_spec(&self, ball: B, point: P) -> B;

    /// The ball spawned by `point`, too far from its nearest ball `ball`.
    spec fn split_spec(&self, ball: B, point: P) -> B;

    /// Whether two balls overlap enough to be merged.
    spec fn overlaps_spec(&self, a: B, b: B) -> bool;

    /// The ball `a` once it has absorbed the ball `b`.
    spec fn merge_spec(&self, a: B, b: B) -> B;

    /// `ball` after one step of mass decay.
    spec fn decay_spec(&self, ball: B) -> B;

    /// Whether `ball` still has enough mass to stay in the model.
    spec fn alive_spec(&self, ball: B) -> bool;

    /// The first ball of a model: centered on `point`, infinite radius, no mass.
    fn init(&self, point: P) -> (r: B)
        ensures
            r == self.init_spec(point),
    ;

    /// Key of the distance from `point` to the center of `ball`, divided by its
    /// radius.
    fn normalized_key(&self, point: &P, ball: &B) -> (r: u64)
        ensures
            r == self.normalized_key_spec(*point, *ball),
    ;

    /// Key of the distance from the center of `from` to the center of `to`,
    /// divided by the radius of `to`.
    fn ball_key(&self, from: &B, to: &B) -> (r: u64)
        ensures
            r == self.ball_key_spec(*from, *to),
    ;

    /// Key of the distance between the centers of two balls.
    fn center_key(&self, a: &B, b: &B) -> (r: u64)
        ensures
            r == self.center_key_spec(*a, *b),
    ;

    /// Whether `point` is close enough to `ball` to be absorbed by it.
    fn absorbs(&self, ball: &B, point: &P) -> (r: bool)
        ensures
            r == self.absorbs_spec(*ball, *point),
    ;

    /// `ball` once it has absorbed `point`.
    fn absorb(&self, ball: &B, point: P) -> (r: B)
        ensures
            r == self.absorb_spec(*ball, point),
    ;

    /// The ball spawned by `point`, too far from its nearest ball `ball`.
    fn split(&self, ball: &B, point: P) -> (r: B)
        ensures
            r == self.split_spec(*ball, point),
    ;

    /// Whether two balls overlap enough to be merged.
    fn overlaps(&self, a: &B, b: &B) -> (r: bool)
        ensures
            r == self.overlaps_spec(*a, *b),
    ;

    /// The ball `a` once it has absorbed the ball `b`.
    fn merge(&self, a: &B, b: &B) -> (r: B)
        ensures
            r == self.merge_spec(*a, *b),
    ;

    /// `ball` after one step of mass decay.
    fn decay(&self, ball: &B) -> (r: B)
        ensures
            r == self.decay_spec(*ball),
    ;

    /// Whether `ball` still has enough mass to stay in the model.
    fn alive(&self, ball: &B) -> (r: bool)
        ensures
            r == self.alive_spec(*ball),
    ;
}

/// Key of the normalized distance from `point` to each ball.
pub open spec fn point_keys<P, B, S: Space<P, B>>(s: S, balls: Seq<B>, point: P) -> Seq<u64> {
    Seq::new(balls.len(), |i: int| s.normalized_key_spec(point, balls[i]))
}

/// `keys[i][j]` is the key of the distance from the center of ball `i` to ball
/// `j`, divided by the radius of ball `j`.
pub open spec fn ball_keys<P, B, S: Space<P, B>>(s: S, balls: Seq<B>) -> Seq<Seq<u64>> {
    Seq::new(
        balls.len(),
        |i: int| Seq::new(balls.len(), |j: int| s.ball_key_spec(balls[i], balls[j])),
    )
}

/// The positions of the two nearest candidates, nearest first, when `keys` are
/// their distance keys.
pub open spec fn nearest_of(keys: Seq<u64>) -> Seq<usize> {
    neighbor_list(choose|r: Neighborhood| is_neighborhood(keys, r))
}

/// The two nearest candidates are as many as there are candidates, at most
/// two, distinct, and each a candidate.
pub proof fn lemma_nearest_of_shape(keys: Seq<u64>)
    requires
        keys.len() <= usize::MAX,
    ensures
        nearest_of(keys).len() == if keys.len() < 2 { keys.len() } else { 2 },
        nearest_of(keys).no_duplicates(),
        in_range(nearest_of(keys), keys.len()),
{
    lemma_neighborhood_exists(keys);
    let r = choose|r: Neighborhood| is_neighborhood(keys, r);
    assert(is_neighborhood(keys, r));
}

/// The two nearest of two chosen pairs are the same pair.
proof fn lemma_two_least_unique(keys: Seq<u64>, x: int, y: int, x2: int, y2: int)
    requires
        two_least(keys, x, y),
        two_least(keys, x2, y2),
    ensures
        x == x2,
        y == y2,
{
    if x != x2 {
        if x2 != y {
            assert(ahead(keys, y, x2));
        }
        if x != y2 {
            assert(ahead(keys, y2, x));
        }
    }
    if y != y2 {
        assert(ahead(keys, y, y2));
        assert(ahead(keys, y2, y));
    }
}

/// Any neighborhood of `keys` lists the candidates of `nearest_of(keys)`.
pub proof fn lemma_nearest_of(keys: Seq<u64>, r: Neighborhood)
    requires
        is_neighborhood(keys, r),
    ensures
        neighbor_list(r) == nearest_of(keys),
{
    let c = choose|c: Neighborhood| is_neighborhood(keys, c);
    assert(is_neighborhood(keys, c));
    if keys.len() >= 2 {
        lemma_two_least_unique(
            keys,
            r.0->0.coord as int,
            r.1->0.coord as int,
            c.0->0.coord as int,
            c.1->0.coord as int,
        );
    }
}

/// A neighbor list that a ball may hold: at most two distinct balls of the
/// model, none of them the ball itself.
pub open spec fn valid_neighbors(ns: Seq<usize>, owner: int, size: nat) -> bool {
    &&& ns.len() <= MAX_NEIGHBORS
    &&& ns.no_duplicates()
    &&& !ns.contains(owner as usize)
    &&& in_range(ns, size)
}

/// Every list of `lists` is a valid neighbor list of its ball.
pub open spec fn lists_valid(lists: Seq<Seq<usize>>) -> bool {
    forall|i: int| 0 <= i < lists.len() ==> valid_neighbors(#[trigger] lists[i], i, lists.len())
}

/// Compacting valid neighbor lists gives valid neighbor lists.
pub proof fn lemma_compaction_valid(lists: Seq<Seq<usize>>, keep: Seq<bool>)
    requires
        keep.len() == lists.len(),
        lists.len() <= usize::MAX + 1,
        lists_valid(lists),
    ensures
        kept(relinked(lists, keep), keep).len() == rank(keep, keep.len() as int),
        lists_valid(kept(relinked(lists, keep), keep)),
{
    let n = lists.len();
    let links = relinked(lists, keep);
    let t = kept(links, keep);
    lemma_kept(links, keep);
    assert forall|k: int| 0 <= k < t.len() implies valid_neighbors(#[trigger] t[k], k, t.len()) by {
        lemma_rank_onto(keep, n as int, k);
        let i = choose|i: int| 0 <= i < n && keep[i] && rank(keep, i) == k;
        let ns = lists[i];
        assert(valid_neighbors(ns, i, n));
        assert(t[k] == links[i]);
        assert(links[i] == remap(ns, keep));
        lemma_remap_contains(ns, keep, k as usize);
        lemma_remap_no_duplicates(ns, keep);
        lemma_rank_bounds(keep, i);
        lemma_rank_strict(keep, i, n as int);
        if remap(ns, keep).contains(k as usize) {
            let w = choose|w: int|
                0 <= w < ns.len() && keep[ns[w] as int] && rank(keep, ns[w] as int) == k as usize;
            assert(ns.contains(ns[w]));
            lemma_rank_injective(keep, i, ns[w] as int);
        }
    }
}

/// The positions of a neighborhood's candidates, nearest first.
pub open spec fn neighbor_list(r: Neighborhood) -> Seq<usize> {
    if r.0 is None {
        Seq::empty()
    } else if r.1 is None {
        seq![r.0->0.coord]
    } else {
        seq![r.0->0.coord, r.1->0.coord]
    }
}

/// Position `p` among the balls other than `i`, as a position in the model.
pub open spec fn skip(p: usize, i: int) -> usize {
    if p < i {
        p
    } else {
        (p + 1) as usize
    }
}

/// The neighbor list of ball `i` when `row` holds the distance keys from ball
/// `i` to every ball: the two nearest of the other balls.
pub open spec fn nearest_others(row: Seq<u64>, i: int, ns: Seq<usize>) -> bool {
    exists|r: Neighborhood|
        is_neighborhood(row.remove(i), r) && ns == neighbor_list(r).map_values(
            |p: usize| skip(p, i),
        )
}

/// Every neighbor list of `ns` holds the two nearest other balls, where
/// `keys[i]` holds the distance keys from ball `i` to every ball.
pub open spec fn all_nearest(keys: Seq<Seq<u64>>, ns: Seq<Seq<usize>>) -> bool {
    forall|i: int| 0 <= i < ns.len() ==> #[trigger] nearest_others(keys[i], i, ns[i])
}

/// A set of balls model.
pub struct Model<B> {
    graph: Graph<B>,
}

impl<B> Model<B> {
    /// The balls, in insertion order.
    pub closed spec fn balls(&self) -> Seq<B> {
        self.graph.values()
    }

    /// The neighbor list of each ball, as positions.
    pub closed spec fn neighbors(&self) -> Seq<Seq<usize>> {
        self.graph.adjacency()
    }

    /// Number of balls.
    pub open spec fn size(&self) -> nat {
        self.balls().len()
    }

    /// Every ball holds a valid neighbor list.
    pub open spec fn wf(&self) -> bool {
        &&& self.neighbors().len() == self.size()
        &&& forall|i: int|
            0 <= i < self.size() ==> valid_neighbors(#[trigger] self.neighbors()[i], i, self.size())
    }

    proof fn lemma_graph_wf(&self)
        requires
            self.wf(),
        ensures
            self.graph.wf(),
    {
        assert forall|i: int| 0 <= i < self.graph.size() implies in_range(
            #[trigger] self.graph.adjacency()[i],
            self.graph.size(),
        ) by {
            assert(valid_neighbors(self.neighbors()[i], i, self.size()));
        }
    }

    /// An empty model.
    pub fn new() -> (m: Self)
        ensures
            m.wf(),
            m.balls() == Seq::<B>::empty(),
    {
        Model { graph: Graph::new() }
    }

    /// Number of balls.
    pub fn len(&self) -> (r: usize)
        requires
            self.wf(),
        ensures
            r == self.size(),
    {
        proof {
            self.lemma_graph_wf();
        }
        self.graph.len()
    }

    /// The graph of balls.
    pub fn graph(&self) -> (g: &Graph<B>)
        ensures
            g.values() == self.balls(),
            g.adjacency() == self.neighbors(),
            self.wf() ==> g.wf(),
    {
        proof {
            if self.wf() {
                self.lemma_graph_wf();
            }
        }
        &self.graph
    }

    /// The balls, in insertion order.
    pub fn iter_balls(&self) -> (r: Vec<&B>)
        requires
            self.wf(),
        ensures
            r@.len() == self.size(),
            forall|i: int| 0 <= i < r@.len() ==> *#[trigger] r@[i] == self.balls()[i],
    {
        proof {
            self.lemma_graph_wf();
        }
        let n = self.graph.len();
        let mut r: Vec<&B> = Vec::new();
        let mut i: usize = 0;
        while i < n
            invariant
                i <= n,
                n == self.size(),
                self.graph.wf(),
                r@.len() == i,
                forall|k: int| 0 <= k < i ==> *#[trigger] r@[k] == self.balls()[k],
            decreases n - i,
        {
            r.push(self.graph.vertex(i).deref_data(&self.graph));
            i = i + 1;
        }
        r
    }

    /// Adds a ball with the given neighbors.
    pub fn add_ball(&mut self, ball: B, neighbors: Vec<Neighbor>) -> (v: Vertex)
        requires
            old(self).wf(),
            old(self).size() < usize::MAX,
            targets(neighbors@).len() <= MAX_NEIGHBORS,
            targets(neighbors@).no_duplicates(),
            in_range(targets(neighbors@), old(self).size()),
        ensures
            final(self).wf(),
            v@ == old(self).size(),
            final(self).balls() == old(self).balls().push(ball),
            final(self).neighbors() == old(self).neighbors().push(targets(neighbors@)),
    {
        proof {
            self.lemma_graph_wf();
        }
        let v = self.graph.add(ball, neighbors);
        proof {
            let n = old(self).size();
            assert forall|i: int| 0 <= i < self.size() implies valid_neighbors(
                #[trigger] self.neighbors()[i],
                i,
                self.size(),
            ) by {
                if i < n {
                    assert(self.neighbors()[i] == old(self).neighbors()[i]);
                    assert(valid_neighbors(old(self).neighbors()[i], i, n));
                } else {
                    assert(self.neighbors()[i] == targets(neighbors@));
                    if targets(neighbors@).contains(i as usize) {
                        let k = choose|k: int|
                            0 <= k < targets(neighbors@).len() && targets(neighbors@)[k] == i as usize;
                    }
                }
            }
        }
        v
    }

    /// Loads a model from a list of balls: each ball gets as neighbors the two
    /// balls nearest to its center among the others, where `keys[i][j]` is the key
    /// of the distance from the center of ball `i` to ball `j`.
    pub fn load_with_keys(data: Vec<B>, keys: &Vec<Vec<u64>>) -> (m: Self)
        requires
            keys@.len() == data@.len(),
            forall|i: int| 0 <= i < keys@.len() ==> (#[trigger] keys@[i])@.len() == data@.len(),
        ensures
            m.wf(),
            m.balls() == data@,
            forall|i: int|
                0 <= i < data@.len() ==> nearest_others(keys@[i]@, i, #[trigger] m.neighbors()[i]),
    {
        let n = data.len();
        let mut model = Model::new();
        let mut rest = data;
        let mut i: usize = 0;
        while i < n
            invariant
                i <= n,
                n == data@.len(),
                model.wf(),
                model.balls() == data@.subrange(0, i as int),
                rest@ == data@.subrange(i as int, n as int),
                forall|k: int| 0 <= k < i ==> (#[trigger] model.neighbors()[k]).len() == 0,
            decreases n - i,
        {
            let ball = rest.remove(0);
            let ghost before = model.neighbors();
            model.add_ball(ball, Vec::new());
            proof {
                assert(targets(Seq::<Neighbor>::empty()) =~= Seq::<usize>::empty());
                assert(model.balls() =~= data@.subrange(0, i + 1));
                assert forall|k: int| 0 <= k < i + 1 implies (
                #[trigger] model.neighbors()[k]).len() == 0 by {
                    if k < i {
                        assert(model.neighbors()[k] == before[k]);
                    }
                }
            }
            i = i + 1;
        }
        proof {
            assert(data@.subrange(0, n as int) =~= data@);
        }
        let mut i: usize = 0;
        while i < n
            invariant
                i <= n,
                n == data@.len(),
                n == model.size(),
                keys@.len() == n,
                forall|k: int| 0 <= k < keys@.len() ==> (#[trigger] keys@[k])@.len() == n,
                model.wf(),
                model.balls() == data@,
                forall|k: int| 0 <= k < i ==> nearest_others(keys@[k]@, k, #[trigger] model.neighbors()[k]),
            decreases n - i,
        {
            let row = others(&keys[i], i);
            let hood = get_neighborhood(&row);
            proof {
                if row@.len() >= 2 {
                    assert(hood.0->0.coord != hood.1->0.coord);
                }
            }
            let list = model.lift(hood, i);
            let ghost before = model.neighbors();
            proof {
                assert(row@ == keys@[i as int]@.remove(i as int));
                assert(nearest_others(keys@[i as int]@, i as int, targets(list@)));
            }
            model.set_neighbors(model.graph.vertex(i), list);
            proof {
                assert forall|k: int| 0 <= k < i + 1 implies nearest_others(
                    keys@[k]@,
                    k,
                    #[trigger] model.neighbors()[k],
                ) by {
                    if k < i {
                        assert(model.neighbors()[k] == before[k]);
                    }
                }
            }
            i = i + 1;
        }
        model
    }

    /// The neighbor references that a neighborhood among the balls other than
    /// ball `i` designates.
    fn lift(&self, hood: Neighborhood, i: usize) -> (r: Vec<Neighbor>)
        requires
            self.wf(),
            i < self.size(),
            hood.0 is Some ==> hood.0->0.coord < self.size() - 1,
            hood.1 is Some ==> {
                &&& hood.0 is Some
                &&& hood.1->0.coord < self.size() - 1
                &&& hood.1->0.coord != hood.0->0.coord
            },
        ensures
            targets(r@) == neighbor_list(hood).map_values(|p: usize| skip(p, i as int)),
            valid_neighbors(targets(r@), i as int, self.size()),
    {
        let n = self.len();
        let mut r: Vec<Neighbor> = Vec::new();
        if let Some(a) = hood.0 {
            let pa = if a.coord < i { a.coord } else { a.coord + 1 };
            r.push(self.graph.vertex(pa).as_neighbor());
            if let Some(b) = hood.1 {
                let pb = if b.coord < i { b.coord } else { b.coord + 1 };
                r.push(self.graph.vertex(pb).as_neighbor());
            }
        }
        proof {
            assert(targets(r@) =~= neighbor_list(hood).map_values(|p: usize| skip(p, i as int)));
        }
        r
    }

    /// Loads a model from a list of balls: each ball gets as neighbors the two
    /// balls nearest to its center among the others.
    pub fn load<P, S: Space<P, B>>(space: &S, data: Vec<B>) -> (m: Self)
        ensures
            m.wf(),
            m.balls() == data@,
            all_nearest(ball_keys(*space, data@), m.neighbors()),
    {
        let n = data.len();
        let mut keys: Vec<Vec<u64>> = Vec::new();
        let mut i: usize = 0;
        while i < n
            invariant
                i <= n,
                n == data@.len(),
                keys@.len() == i,
                forall|k: int| 0 <= k < i ==> (#[trigger] keys@[k])@ == ball_keys(*space, data@)[k],
            decreases n - i,
        {
            let mut row: Vec<u64> = Vec::new();
            let mut j: usize = 0;
            while j < n
                invariant
                    i < n,
                    j <= n,
                    n == data@.len(),
                    row@.len() == j,
                    forall|k: int|
                        0 <= k < j ==> #[trigger] row@[k] == space.ball_key_spec(
                            data@[i as int],
                            data@[k],
                        ),
                decreases n - j,
            {
                row.push(space.ball_key(&data[i], &data[j]));
                j = j + 1;
            }
            proof {
                assert(row@ =~= ball_keys(*space, data@)[i as int]);
            }
            keys.push(row);
            i = i + 1;
        }
        let ghost all = data@;
        let m = Self::load_with_keys(data, &keys);
        proof {
            let rows = ball_keys(*space, all);
            assert forall|i: int| 0 <= i < m.neighbors().len() implies #[trigger] nearest_others(
                rows[i],
                i,
                m.neighbors()[i],
            ) by {
                assert(rows[i] == keys@[i]@);
            }
        }
        m
    }

    /// The balls nearest to some point, nearest first, given the key of the
    /// distance from that point to each ball.
    pub fn nearest(&self, keys: &Vec<u64>) -> (r: Vec<Vertex>)
        requires
            self.wf(),
            keys@.len() == self.size(),
        ensures
            exists|h: Neighborhood|
                is_neighborhood(keys@, h) && r@.map_values(|v: Vertex| v@) == neighbor_list(h),
            r@.len() <= MAX_NEIGHBORS,
            r@.len() == if self.size() < 2 { self.size() } else { 2 },
            r@.map_values(|v: Vertex| v@).no_duplicates(),
            forall|k: int| 0 <= k < r@.len() ==> #[trigger] r@[k]@ < self.size(),
    {
        let hood = get_neighborhood(keys);
        let mut r: Vec<Vertex> = Vec::new();
        if let Some(a) = hood.0 {
            r.push(self.graph.vertex(a.coord));
            if let Some(b) = hood.1 {
                r.push(self.graph.vertex(b.coord));
            }
        }
        proof {
            assert(r@.map_values(|v: Vertex| v@) =~= neighbor_list(hood));
            if r@.len() == 2 {
                assert(r@[0]@ == hood.0->0.coord);
                assert(r@[1]@ == hood.1->0.coord);
                assert(r@.map_values(|v: Vertex| v@)[0] != r@.map_values(|v: Vertex| v@)[1]);
            }
        }
        r
    }

    /// The balls nearest to `point` by normalized distance, nearest first.
    pub fn get_neighborhood<P, S: Space<P, B>>(&self, space: &S, point: &P) -> (r: Vec<Vertex>)
        requires
            self.wf(),
        ensures
            r@.map_values(|v: Vertex| v@) == nearest_of(point_keys(*space, self.balls(), *point)),
            r@.len() == if self.size() < 2 { self.size() } else { 2 },
            r@.map_values(|v: Vertex| v@).no_duplicates(),
            forall|k: int| 0 <= k < r@.len() ==> #[trigger] r@[k]@ < self.size(),
    {
        let keys = self.keys_from(space, point);
        let r = self.nearest(&keys);
        proof {
            let h = choose|h: Neighborhood|
                is_neighborhood(keys@, h) && r@.map_values(|v: Vertex| v@) == neighbor_list(h);
            lemma_nearest_of(keys@, h);
        }
        r
    }

    /// The balls nearest to `point` by normalized distance, nearest first, with
    /// their distance keys.
    pub fn predict<P, S: Space<P, B>>(&self, space: &S, point: &P) -> (r: Neighborhood)
        requires
            self.wf(),
        ensures
            is_neighborhood(point_keys(*space, self.balls(), *point), r),
    {
        let keys = self.keys_from(space, point);
        get_neighborhood(&keys)
    }

    /// Key of the normalized distance from `point` to each ball.
    fn keys_from<P, S: Space<P, B>>(&self, space: &S, point: &P) -> (r: Vec<u64>)
        requires
            self.wf(),
        ensures
            r@ == point_keys(*space, self.balls(), *point),
    {
        let n = self.len();
        let mut keys: Vec<u64> = Vec::new();
        let mut i: usize = 0;
        while i < n
            invariant
                i <= n,
                n == self.size(),
                self.wf(),
                keys@.len() == i,
                forall|k: int|
                    0 <= k < i ==> #[trigger] keys@[k] == space.normalized_key_spec(
                        *point,
                        self.balls()[k],
                    ),
            decreases n - i,
        {
            proof {
                self.lemma_graph_wf();
            }
            let ball = self.graph.vertex(i).deref_data(&self.graph);
            keys.push(space.normalized_key(point, ball));
            i = i + 1;
        }
        proof {
            assert(keys@ =~= point_keys(*space, self.balls(), *point));
        }
        keys
    }

    /// The ball of vertex `v`.
    pub fn ball(&self, v: Vertex) -> (r: &B)
        requires
            self.wf(),
            v@ < self.size(),
        ensures
            *r == self.balls()[v@ as int],
    {
        proof {
            self.lemma_graph_wf();
        }
        v.deref_data(&self.graph)
    }

    /// Replaces the ball of vertex `v`, keeping its neighbors.
    pub fn update_ball(&mut self, v: Vertex, ball: B)
        requires
            old(self).wf(),
            v@ < old(self).size(),
        ensures
            final(self).wf(),
            final(self).balls() == old(self).balls().update(v@ as int, ball),
            final(self).neighbors() == old(self).neighbors(),
    {
        proof {
            self.lemma_graph_wf();
        }
        v.deref_data_mut(&mut self.graph, ball);
    }

    /// The vertex at position `i`.
    pub fn vertex(&self, i: usize) -> (v: Vertex)
        requires
            i < self.size(),
        ensures
            v@ == i,
    {
        self.graph.vertex(i)
    }

    /// References to the balls at the given positions.
    pub fn neighbor_refs(&self, list: &Vec<usize>) -> (r: Vec<Neighbor>)
        requires
            in_range(list@, self.size()),
        ensures
            targets(r@) == list@,
    {
        let mut r: Vec<Neighbor> = Vec::new();
        let mut k: usize = 0;
        while k < list.len()
            invariant
                k <= list@.len(),
                in_range(list@, self.size()),
                r@.len() == k,
                forall|m: int| 0 <= m < k ==> #[trigger] r@[m]@ == list@[m],
            decreases list@.len() - k,
        {
            r.push(self.graph.vertex(list[k]).as_neighbor());
            k = k + 1;
        }
        proof {
            assert(targets(r@) =~= list@);
        }
        r
    }

    /// Keeps the balls whose flag is set, in order, and drops the others together
    /// with every neighbor reference aimed at them.
    pub fn retain(&mut self, keep: &Vec<bool>)
        requires
            old(self).wf(),
            keep@.len() == old(self).size(),
        ensures
            final(self).wf(),
            final(self).size() == rank(keep@, keep@.len() as int),
            forall|i: int|
                0 <= i < old(self).size() && keep@[i] ==> final(self).balls()[rank(keep@, i) as int]
                    == #[trigger] old(self).balls()[i],
            forall|i: int|
                0 <= i < old(self).size() && keep@[i] ==> final(self).neighbors()[rank(
                    keep@,
                    i,
                ) as int] == remap(#[trigger] old(self).neighbors()[i], keep@),
            final(self).balls() == kept(old(self).balls(), keep@),
            final(self).neighbors() == kept(relinked(old(self).neighbors(), keep@), keep@),
    {
        proof {
            self.lemma_graph_wf();
        }
        let n0 = self.len();
        self.graph.retain(keep);
        proof {
            let n = n0 as nat;
            assert forall|k: int| 0 <= k < self.size() implies valid_neighbors(
                #[trigger] self.neighbors()[k],
                k,
                self.size(),
            ) by {
                lemma_rank_onto(keep@, n as int, k);
                let i = choose|i: int| 0 <= i < n && keep@[i] && rank(keep@, i) == k;
                let ns = old(self).neighbors()[i];
                assert(valid_neighbors(ns, i, n));
                assert(self.neighbors()[k] == remap(ns, keep@));
                lemma_remap_contains(ns, keep@, k as usize);
                lemma_remap_no_duplicates(ns, keep@);
                lemma_rank_bounds(keep@, i);
                lemma_rank_strict(keep@, i, n as int);
                assert(remap(ns, keep@).len() <= MAX_NEIGHBORS);
                assert(in_range(remap(ns, keep@), self.size()));
                if remap(ns, keep@).contains(k as usize) {
                    let w = choose|w: int|
                        0 <= w < ns.len() && keep@[ns[w] as int] && rank(keep@, ns[w] as int)
                            == k as usize;
                    assert(ns.contains(ns[w]));
                    assert(ns[w] as int != i);
                    lemma_rank_injective(keep@, i, ns[w] as int);
                }
                assert(!remap(ns, keep@).contains(k as usize));
            }
            lemma_kept_equal(old(self).balls(), keep@, self.balls());
            let links = relinked(old(self).neighbors(), keep@);
            assert forall|i: int| 0 <= i < links.len() && keep@[i] implies self.neighbors()[rank(
                keep@,
                i,
            ) as int] == #[trigger] links[i] by {
                assert(links[i] == remap(old(self).neighbors()[i], keep@));
            }
            lemma_kept_equal(links, keep@, self.neighbors());
        }
    }

    /// Replaces the neighbor list of a ball.
    pub fn set_neighbors(&mut self, v: Vertex, neighbors: Vec<Neighbor>)
        requires
            old(self).wf(),
            v@ < old(self).size(),
            valid_neighbors(targets(neighbors@), v@ as int, old(self).size()),
        ensures
            final(self).wf(),
            final(self).balls() == old(self).balls(),
            final(self).neighbors() == old(self).neighbors().update(v@ as int, targets(neighbors@)),
    {
        proof {
            self.lemma_graph_wf();
        }
        v.set_neighbors(&mut self.graph, neighbors);
        proof {
            assert forall|i: int| 0 <= i < self.size() implies valid_neighbors(
                #[trigger] self.neighbors()[i],
                i,
                self.size(),
            ) by {
                if i != v@ {
                    assert(self.neighbors()[i] == old(self).neighbors()[i]);
                }
            }
        }
    }
}

/// The keys of `row` but the one at position `i`.
fn others(row: &Vec<u64>, i: usize) -> (r: Vec<u64>)
    requires
        i < row@.len(),
    ensures
        r@ == row@.remove(i as int),
{
    let mut r: Vec<u64> = Vec::new();
    let mut j: usize = 0;
    while j < row.len()
        invariant
            i < row@.len(),
            j <= row@.len(),
            r@ == if j <= i {
                row@.subrange(0, j as int)
            } else {
                row@.remove(i as int).subrange(0, j - 1)
            },
        decreases row@.len() - j,
    {
        if j != i {
            r.push(row[j]);
        }
        j = j + 1;
        proof {
            if j <= i {
                assert(r@ =~= row@.subrange(0, j as int));
            } else {
                assert(r@ =~= row@.remove(i as int).subrange(0, j - 1));
            }
        }
    }
    proof {
        assert(row@.remove(i as int).subrange(0, row@.len() - 1) =~= row@.remove(i as int));
    }
    r
}

} // verus!
