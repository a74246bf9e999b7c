//! The algorithm that fits a set of balls model to a stream of points.
//!
//! Each point is absorbed by the ball nearest to it or spawns a new ball; the
//! ball touched refines its cached neighbors against a candidate, merges with
//! its nearest neighbor when they overlap, and every other ball decays, the
//! lightest ones being pruned.
use vstd::prelude::*;
use crate::graph::{Vertex, in_range, kept, lemma_kept, lemma_rank_bounds, relinked, targets};
use crate::model::{
    Model, Space, lemma_compaction_valid, lemma_nearest_of_shape, lists_valid, nearest_of, point_keys,
    valid_neighbors,
};
use crate::MAX_NEIGHBORS;

verus! {

/// The neighbor list `l` of a ball once `c` has been considered for it, where
/// `k` holds the distance keys from the ball to each of `l` and `ck` the one to
/// `c`, scanning the positions from `i` on: at the end of the list `c` is
/// appended, at `c` itself the list is kept, before the first farther neighbor
/// `c` is inserted; past the last position the list is kept.
pub open spec fn refine_from(l: Seq<usize>, k: Seq<u64>, c: usize, ck: u64, i: int) -> Seq<
    usize,
>
    decreases MAX_NEIGHBORS - i,
{
    if i < 0 || i >= MAX_NEIGHBORS {
        l
    } else if i == l.len() {
        l.push(c)
    } else if i > l.len() {
        l
    } else if l[i] == c {
        l
    } else if k[i] > ck {
        l.insert(i, c)
    } else {
        refine_from(l, k, c, ck, i + 1)
    }
}

/// The neighbor list `l` once `c` has been considered for it, scanning from
/// the nearest neighbor.
pub open spec fn refined(l: Seq<usize>, k: Seq<u64>, c: usize, ck: u64) -> Seq<usize> {
    refine_from(l, k, c, ck, 0)
}

/// A refined neighbor list once its head has been merged away (when `merged`)
/// and its overflow dropped.
pub open spec fn settled(r: Seq<usize>, merged: bool) -> Seq<usize> {
    let s = if merged {
        r.subrange(1, r.len() as int)
    } else {
        r
    };
    if s.len() > MAX_NEIGHBORS {
        s.subrange(0, MAX_NEIGHBORS as int)
    } else {
        s
    }
}

/// Refining and settling a valid neighbor list against another ball of the
/// model gives a valid neighbor list.
pub proof fn lemma_settled_valid(
    l: Seq<usize>,
    k: Seq<u64>,
    c: usize,
    ck: u64,
    owner: int,
    size: nat,
    merged: bool,
)
    requires
        0 <= owner <= usize::MAX,
        valid_neighbors(l, owner, size),
        k.len() == l.len(),
        c != owner,
        c < size,
    ensures
        refined(l, k, c, ck).len() >= 1,
        refined(l, k, c, ck).len() <= MAX_NEIGHBORS + 1,
        in_range(refined(l, k, c, ck), size),
        !refined(l, k, c, ck).contains(owner as usize),
        valid_neighbors(settled(refined(l, k, c, ck), merged), owner, size),
{
    reveal_with_fuel(refine_from, 3);
    let r = refined(l, k, c, ck);
    assert(r.len() <= 3);
    assert forall|x: int| 0 <= x < r.len() implies r[x] < size && r[x] != owner as usize by {
        if !(l.len() == 0) && !(l[0] == c) && k[0] > ck {
            if x > 0 {
                assert(r[x] == l[x - 1]);
                assert(l.contains(l[x - 1]));
            }
        } else if !(l.len() == 0) && !(l[0] == c) && l.len() == 1 {
            if x == 0 {
                assert(l.contains(l[0]));
            }
        } else if !(l.len() == 0) && !(l[0] == c) && !(l[1] == c) && k[1] > ck {
            if x == 0 {
                assert(l.contains(l[0]));
            } else if x == 2 {
                assert(r[x] == l[1]);
                assert(l.contains(l[1]));
            }
        } else if l.len() > 0 {
            assert(l.contains(l[x]));
        }
    }
    let s = settled(r, merged);
    assert forall|x: int| 0 <= x < s.len() implies s[x] < size && s[x] != owner as usize by {
        if merged {
            assert(s[x] == r[x + 1]);
        } else {
            assert(s[x] == r[x]);
        }
    }
    assert(s.no_duplicates()) by {
        if l.len() == 2 {
            assert(l[0] != l[1]);
        }
        assert forall|x: int, y: int| 0 <= x < s.len() && 0 <= y < s.len() && x != y implies s[x]
            != s[y] by {
            if merged {
                assert(s[x] == r[x + 1]);
                assert(s[y] == r[y + 1]);
            } else {
                assert(s[x] == r[x]);
                assert(s[y] == r[y]);
            }
        }
    }
    assert(!s.contains(owner as usize));
}

/// The position of an optional vertex.
pub open spec fn position(v: Option<Vertex>) -> Option<usize> {
    match v {
        Some(x) => Some(x@),
        None => None,
    }
}

/// Absorb or split: `point` is absorbed by the nearest ball `hood[0]` when close
/// enough, else it spawns a new ball whose neighbors are `hood`. Gives the balls,
/// the neighbor lists, the ball touched and the candidate for refinement.
pub open spec fn update_step<P, B, S: Space<P, B>>(
    s: S,
    balls: Seq<B>,
    lists: Seq<Seq<usize>>,
    hood: Seq<usize>,
    point: P,
) -> (Seq<B>, Seq<Seq<usize>>, usize, Option<usize>) {
    let primary = hood[0];
    let ball = balls[primary as int];
    if s.absorbs_spec(ball, point) {
        (
            balls.update(primary as int, s.absorb_spec(ball, point)),
            lists,
            primary,
            if hood.len() > 1 {
                Some(hood[1])
            } else {
                None
            },
        )
    } else {
        (
            balls.push(s.split_spec(ball, point)),
            lists.push(hood),
            balls.len() as usize,
            Some(balls.len() as usize),
        )
    }
}

/// Keys of the distances from ball `v` to each ball of `l`, between centers.
pub open spec fn center_keys<P, B, S: Space<P, B>>(
    s: S,
    balls: Seq<B>,
    l: Seq<usize>,
    v: usize,
) -> Seq<u64> {
    Seq::new(l.len(), |k: int| s.center_key_spec(balls[l[k] as int], balls[v as int]))
}

/// Local refinement: the neighbors of ball `v` are refined against `c`, then `v`
/// absorbs its nearest neighbor when they overlap. Gives the balls, the neighbor
/// lists and the ball merged away.
pub open spec fn local_step<P, B, S: Space<P, B>>(
    s: S,
    balls: Seq<B>,
    lists: Seq<Seq<usize>>,
    v: usize,
    c: usize,
) -> (Seq<B>, Seq<Seq<usize>>, Option<usize>) {
    let l = lists[v as int];
    let r = refined(
        l,
        center_keys(s, balls, l, v),
        c,
        s.center_key_spec(balls[c as int], balls[v as int]),
    );
    let first = r[0];
    if s.overlaps_spec(balls[v as int], balls[first as int]) {
        (
            balls.update(v as int, s.merge_spec(balls[v as int], balls[first as int])),
            lists.update(v as int, settled(r, true)),
            Some(first),
        )
    } else {
        (balls, lists.update(v as int, settled(r, false)), None)
    }
}

/// Every ball but `vertex` after one step of decay.
pub open spec fn decayed<P, B, S: Space<P, B>>(s: S, balls: Seq<B>, vertex: usize) -> Seq<B> {
    Seq::new(
        balls.len(),
        |i: int|
            if i == vertex {
                balls[i]
            } else {
                s.decay_spec(balls[i])
            },
    )
}

/// The balls that stay: alive, and not merged away.
pub open spec fn survivors<P, B, S: Space<P, B>>(
    s: S,
    balls: Seq<B>,
    doomed: Option<usize>,
) -> Seq<bool> {
    Seq::new(balls.len(), |i: int| s.alive_spec(balls[i]) && doomed != Some(i as usize))
}

/// Decay and prune: every ball but `vertex` decays, then the balls that are
/// not alive, and the one merged away, are dropped with the references to them.
pub open spec fn decay_step<P, B, S: Space<P, B>>(
    s: S,
    balls: Seq<B>,
    lists: Seq<Seq<usize>>,
    vertex: usize,
    doomed: Option<usize>,
) -> (Seq<B>, Seq<Seq<usize>>) {
    let d = decayed(s, balls, vertex);
    let keep = survivors(s, d, doomed);
    (kept(d, keep), kept(relinked(lists, keep), keep))
}

/// The model after fitting `point`: the first point gives the first ball; any
/// later one goes through absorb or split, local refinement and merge, then
/// decay and prune.
pub open spec fn fit_step<P, B, S: Space<P, B>>(
    s: S,
    balls: Seq<B>,
    lists: Seq<Seq<usize>>,
    point: P,
) -> (Seq<B>, Seq<Seq<usize>>) {
    if balls.len() == 0 {
        (seq![s.init_spec(point)], seq![Seq::empty()])
    } else {
        let hood = nearest_of(point_keys(s, balls, point));
        let u = update_step(s, balls, lists, hood, point);
        let m = match u.3 {
            Some(c) => local_step(s, u.0, u.1, hood[0], c),
            None => (u.0, u.1, None),
        };
        decay_step(s, m.0, m.1, u.2, m.2)
    }
}

/// Whatever the space, fitting a point keeps every neighbor list valid: at most
/// two neighbors, distinct, never the ball itself, and each a ball of the
/// model. The model keeps one neighbor list per ball.
pub proof fn lemma_fit_keeps_lists_valid<P, B, S: Space<P, B>>(
    s: S,
    balls: Seq<B>,
    lists: Seq<Seq<usize>>,
    point: P,
)
    requires
        balls.len() <= usize::MAX,
        lists.len() == balls.len(),
        lists_valid(lists),
    ensures
        fit_step(s, balls, lists, point).1.len() == fit_step(s, balls, lists, point).0.len(),
        lists_valid(fit_step(s, balls, lists, point).1),
{
    let n = balls.len();
    if n == 0 {
        let f = fit_step(s, balls, lists, point);
        assert(valid_neighbors(f.1[0], 0, 1));
        assert(lists_valid(f.1));
    } else {
        let keys = point_keys(s, balls, point);
        lemma_nearest_of_shape(keys);
        let hood = nearest_of(keys);
        let u = update_step(s, balls, lists, hood, point);
        assert(u.1.len() == u.0.len());
        assert(lists_valid(u.1)) by {
            if !s.absorbs_spec(balls[hood[0] as int], point) {
                assert forall|i: int| 0 <= i < u.1.len() implies valid_neighbors(
                    #[trigger] u.1[i],
                    i,
                    u.1.len(),
                ) by {
                    if i < n {
                        assert(u.1[i] == lists[i]);
                        assert(valid_neighbors(lists[i], i, n));
                    } else {
                        assert(u.1[i] == hood);
                        if hood.contains(i as usize) {
                            let w = choose|w: int| 0 <= w < hood.len() && hood[w] == i as usize;
                        }
                    }
                }
            }
        }
        let m = match u.3 {
            Some(c) => local_step(s, u.0, u.1, hood[0], c),
            None => (u.0, u.1, None),
        };
        assert(m.1.len() == m.0.len() && m.0.len() == u.0.len());
        assert(lists_valid(m.1)) by {
            if let Some(c) = u.3 {
                let v = hood[0];
                let l = u.1[v as int];
                let k = center_keys(s, u.0, l, v);
                let ck = s.center_key_spec(u.0[c as int], u.0[v as int]);
                let r = refined(l, k, c, ck);
                let merged = s.overlaps_spec(u.0[v as int], u.0[r[0] as int]);
                assert(valid_neighbors(l, v as int, u.1.len()));
                lemma_settled_valid(l, k, c, ck, v as int, u.1.len(), merged);
                assert(m.1 == u.1.update(v as int, settled(r, merged)));
                assert forall|i: int| 0 <= i < m.1.len() implies valid_neighbors(
                    #[trigger] m.1[i],
                    i,
                    m.1.len(),
                ) by {
                    if i != v {
                        assert(m.1[i] == u.1[i]);
                    }
                }
            }
        }
        let d = decayed(s, m.0, u.2);
        let keep = survivors(s, d, m.2);
        lemma_compaction_valid(m.1, keep);
        lemma_kept(d, keep);
    }
}

/// Fits incoming points to a set of balls model, in the geometry of a `Space`.
pub struct Algo<S> {
    space: S,
}

impl<S> Algo<S> {
    /// The space the algorithm works in.
    pub closed spec fn space(&self) -> S {
        self.space
    }

    /// An algorithm working in the given space.
    pub fn new(space: S) -> (a: Self)
        ensures
            a.space() == space,
    {
        Algo { space }
    }

    /// Fits `point` into `model`: the model becomes `fit_step` of the model and
    /// the point, in the algorithm's space.
    ///
    /// The first point gives the model its first ball, alone and without
    /// neighbors. Every later point adds at most one ball.
    pub fn fit<P, B>(&self, model: &mut Model<B>, point: P) where S: Space<P, B>
        requires
            old(model).wf(),
            old(model).size() < usize::MAX,
        ensures
            final(model).wf(),
            old(model).size() == 0 ==> final(model).size() == 1 && final(model).neighbors()[0].len()
                == 0,
            final(model).size() <= old(model).size() + 1,
            (final(model).balls(), final(model).neighbors()) == fit_step(
                self.space(),
                old(model).balls(),
                old(model).neighbors(),
                point,
            ),
    {
        let hood = model.get_neighborhood(&self.space, &point);
        if hood.len() == 0 {
            let ball = self.space.init(point);
            model.add_ball(ball, Vec::new());
            proof {
                assert(targets(Seq::empty()) =~= Seq::<usize>::empty());
                assert(model.balls() =~= seq![self.space.init_spec(point)]);
                assert(model.neighbors() =~= seq![Seq::<usize>::empty()]);
            }
            return;
        }
        let primary = hood[0];
        let (vertex, candidate) = self.update(model, primary, point, &hood);
        let doomed = match candidate {
            Some(c) => self.update_local_graph(model, primary, c),
            None => None,
        };
        self.decay(model, vertex, doomed);
    }

    /// Absorbs `point` into the nearest ball `primary` when close enough, or
    /// spawns a new ball for it whose neighbors are `hood`. Returns the ball
    /// touched and the candidate to refine the neighbors of `primary` with.
    pub fn update<P, B>(
        &self,
        model: &mut Model<B>,
        primary: Vertex,
        point: P,
        hood: &Vec<Vertex>,
    ) -> (r: (Vertex, Option<Vertex>)) where S: Space<P, B>
        requires
            old(model).wf(),
            old(model).size() < usize::MAX,
            1 <= hood@.len() <= MAX_NEIGHBORS,
            hood@[0] == primary,
            hood@.map_values(|v: Vertex| v@).no_duplicates(),
            forall|k: int| 0 <= k < hood@.len() ==> #[trigger] hood@[k]@ < old(model).size(),
        ensures
            final(model).wf(),
            final(model).size() == old(model).size() || final(model).size() == old(model).size()
                + 1,
            r.0@ < final(model).size(),
            primary@ < final(model).size(),
            r.1 is Some ==> r.1->0@ < final(model).size() && r.1->0@ != primary@,
            final(model).size() == old(model).size() + 1 ==> {
                &&& r.0@ == old(model).size()
                &&& r.1 == Some(r.0)
                &&& final(model).neighbors()[r.0@ as int] == hood@.map_values(|v: Vertex| v@)
            },
            final(model).size() == old(model).size() ==> {
                &&& r.0 == primary
                &&& final(model).neighbors() == old(model).neighbors()
                &&& r.1 == if hood@.len() > 1 {
                    Some(hood@[1])
                } else {
                    None
                }
            },
            final(model).size() == old(model).size() + 1 ==> {
                &&& final(model).balls().subrange(0, old(model).size() as int) == old(model).balls()
                &&& final(model).neighbors() == old(model).neighbors().push(
                    hood@.map_values(|v: Vertex| v@),
                )
            },
            final(model).size() == old(model).size() ==> forall|i: int|
                0 <= i < old(model).size() && i != primary@ ==> #[trigger] final(model).balls()[i]
                    == old(model).balls()[i],
            (final(model).balls(), final(model).neighbors(), r.0@, position(r.1)) == update_step(
                self.space(),
                old(model).balls(),
                old(model).neighbors(),
                hood@.map_values(|v: Vertex| v@),
                point,
            ),
    {
        let ball = model.ball(primary);
        if self.space.absorbs(ball, &point) {
            let updated = self.space.absorb(ball, point);
            model.update_ball(primary, updated);
            let candidate = if hood.len() > 1 {
                proof {
                    assert(hood@.map_values(|v: Vertex| v@)[0] != hood@.map_values(
                        |v: Vertex| v@,
                    )[1]);
                }
                Some(hood[1])
            } else {
                None
            };
            (primary, candidate)
        } else {
            let spawned = self.space.split(ball, point);
            let mut list: Vec<usize> = Vec::new();
            let mut k: usize = 0;
            while k < hood.len()
                invariant
                    k <= hood@.len(),
                    hood@.len() <= MAX_NEIGHBORS,
                    forall|m: int| 0 <= m < hood@.len() ==> #[trigger] hood@[m]@ < old(model).size(),
                    list@.len() == k,
                    forall|m: int| 0 <= m < k ==> #[trigger] list@[m] == hood@[m]@,
                decreases hood@.len() - k,
            {
                list.push(hood[k].index());
                k = k + 1;
            }
            proof {
                assert(list@ =~= hood@.map_values(|v: Vertex| v@));
            }
            let refs = model.neighbor_refs(&list);
            let v = model.add_ball(spawned, refs);
            (v, Some(v))
        }
    }

    /// Refines the neighbors of `vertex` against `candidate`, then merges
    /// `vertex` with its nearest neighbor when they overlap. Returns the ball
    /// merged away, if any.
    pub fn update_local_graph<P, B>(
        &self,
        model: &mut Model<B>,
        vertex: Vertex,
        candidate: Vertex,
    ) -> (doomed: Option<Vertex>) where S: Space<P, B>
        requires
            old(model).wf(),
            vertex@ < old(model).size(),
            candidate@ < old(model).size(),
            vertex@ != candidate@,
        ensures
            final(model).wf(),
            final(model).size() == old(model).size(),
            doomed is Some ==> doomed->0@ < final(model).size() && doomed->0@ != vertex@,
            forall|i: int|
                0 <= i < old(model).size() && i != vertex@ ==> #[trigger] final(model).balls()[i]
                    == old(model).balls()[i],
            doomed is None ==> final(model).balls() == old(model).balls(),
            (final(model).balls(), final(model).neighbors(), position(doomed)) == local_step(
                self.space(),
                old(model).balls(),
                old(model).neighbors(),
                vertex@,
                candidate@,
            ),
    {
        let ghost old_list = model.neighbors()[vertex@ as int];
        let listed = vertex.iter_neighbors(model.graph());
        let mut list: Vec<usize> = Vec::new();
        let mut keys: Vec<u64> = Vec::new();
        let mut k: usize = 0;
        proof {
            assert(valid_neighbors(old_list, vertex@ as int, model.size()));
        }
        while k < listed.len()
            invariant
                model.wf(),
                *model == *old(model),
                vertex@ < model.size(),
                old_list == model.neighbors()[vertex@ as int],
                listed@.map_values(|v: Vertex| v@) == old_list,
                forall|m: int| 0 <= m < listed@.len() ==> #[trigger] listed@[m]@ < model.size(),
                k <= listed@.len(),
                list@.len() == k,
                keys@.len() == k,
                forall|m: int| 0 <= m < k ==> #[trigger] list@[m] == old_list[m],
                forall|m: int|
                    0 <= m < k ==> #[trigger] keys@[m] == self.space.center_key_spec(
                        model.balls()[old_list[m] as int],
                        model.balls()[vertex@ as int],
                    ),
            decreases listed@.len() - k,
        {
            proof {
                assert(listed@.map_values(|v: Vertex| v@)[k as int] == listed@[k as int]@);
            }
            list.push(listed[k].index());
            keys.push(self.space.center_key(model.ball(listed[k]), model.ball(vertex)));
            k = k + 1;
        }
        proof {
            assert(listed@.map_values(|v: Vertex| v@).len() == listed@.len());
            assert(list@ =~= old_list);
            assert(keys@ =~= center_keys(self.space, model.balls(), old_list, vertex@));
        }
        let candidate_key = self.space.center_key(model.ball(candidate), model.ball(vertex));
        let mut list = rebuild_neighborhood(list, &keys, candidate.index(), candidate_key);
        let ghost r = list@;
        proof {
            lemma_settled_valid(
                old_list,
                keys@,
                candidate@,
                candidate_key,
                vertex@ as int,
                model.size(),
                true,
            );
            lemma_settled_valid(
                old_list,
                keys@,
                candidate@,
                candidate_key,
                vertex@ as int,
                model.size(),
                false,
            );
        }
        let ghost balls0 = model.balls();
        let first = model.vertex(list[0]);
        let doomed = if self.space.overlaps(model.ball(vertex), model.ball(first)) {
            let merged = self.space.merge(model.ball(vertex), model.ball(first));
            model.update_ball(vertex, merged);
            list.remove(0);
            proof {
                assert(r.contains(r[0]));
            }
            Some(first)
        } else {
            None
        };
        if list.len() > MAX_NEIGHBORS {
            list.pop();
        }
        proof {
            assert(list@ =~= settled(r, doomed is Some));
        }
        let refs = model.neighbor_refs(&list);
        model.set_neighbors(vertex, refs);
        proof {
            assert(model.neighbors() == old(model).neighbors().update(
                vertex@ as int,
                settled(r, doomed is Some),
            ));
            assert(r == refined(
                old_list,
                center_keys(self.space, balls0, old_list, vertex@),
                candidate@,
                self.space.center_key_spec(balls0[candidate@ as int], balls0[vertex@ as int]),
            ));
            assert(first@ == r[0]);
            if doomed is None {
                assert(model.balls() == balls0);
            }
        }
        doomed
    }

    /// Decays every ball but `vertex`, then prunes the balls whose mass is too
    /// low, together with the ball `doomed` merged away in this step.
    pub fn decay<P, B>(&self, model: &mut Model<B>, vertex: Vertex, doomed: Option<Vertex>) where
        S: Space<P, B>,
        requires
            old(model).wf(),
            vertex@ < old(model).size(),
            doomed is Some ==> doomed->0@ < old(model).size(),
        ensures
            final(model).wf(),
            final(model).size() <= old(model).size(),
            (final(model).balls(), final(model).neighbors()) == decay_step(
                self.space(),
                old(model).balls(),
                old(model).neighbors(),
                vertex@,
                position(doomed),
            ),
            doomed is Some ==> !survivors(
                self.space(),
                decayed(self.space(), old(model).balls(), vertex@),
                position(doomed),
            )[doomed->0@ as int],
    {
        let n = model.len();
        let ghost d = decayed(self.space, old(model).balls(), vertex@);
        let ghost alive = survivors(self.space, d, position(doomed));
        let mut keep: Vec<bool> = Vec::new();
        let mut i: usize = 0;
        while i < n
            invariant
                i <= n,
                model.wf(),
                model.size() == n,
                n == old(model).size(),
                vertex@ < n,
                doomed is Some ==> doomed->0@ < n,
                d == decayed(self.space, old(model).balls(), vertex@),
                alive == survivors(self.space, d, position(doomed)),
                model.neighbors() == old(model).neighbors(),
                forall|j: int| 0 <= j < i ==> #[trigger] model.balls()[j] == d[j],
                forall|j: int| i <= j < n ==> #[trigger] model.balls()[j] == old(model).balls()[j],
                keep@.len() == i,
                forall|j: int| 0 <= j < i ==> #[trigger] keep@[j] == alive[j],
            decreases n - i,
        {
            let v = model.vertex(i);
            if i != vertex.index() {
                let decayed = self.space.decay(model.ball(v));
                model.update_ball(v, decayed);
            }
            let alive_now = self.space.alive(model.ball(v));
            let merged_away = match doomed {
                Some(x) => x.index() == i,
                None => false,
            };
            keep.push(alive_now && !merged_away);
            i = i + 1;
        }
        proof {
            assert(model.balls() =~= d);
            assert(keep@ =~= alive);
        }
        model.retain(&keep);
        proof {
            lemma_kept(d, alive);
            lemma_rank_bounds(alive, alive.len() as int);
        }
    }
}

/// The neighbor list `list` once `candidate` has been considered for it, where
/// `keys` holds the distance keys from the owning ball to each listed ball and
/// `candidate_key` the one to the candidate.
pub fn rebuild_neighborhood(
    list: Vec<usize>,
    keys: &Vec<u64>,
    candidate: usize,
    candidate_key: u64,
) -> (r: Vec<usize>)
    requires
        list@.len() <= MAX_NEIGHBORS,
        keys@.len() == list@.len(),
    ensures
        r@ == refined(list@, keys@, candidate, candidate_key),
{
    let ghost given = list@;
    let mut list = list;
    let mut done = false;
    let mut i: usize = 0;
    while i < MAX_NEIGHBORS && !done
        invariant
            i <= MAX_NEIGHBORS,
            given.len() <= MAX_NEIGHBORS,
            keys@.len() == given.len(),
            !done ==> list@ == given && i <= given.len() && refined(given, keys@, candidate, candidate_key)
                == refine_from(given, keys@, candidate, candidate_key, i as int),
            done ==> list@ == refined(given, keys@, candidate, candidate_key),
        decreases MAX_NEIGHBORS - i + if done {
            0int
        } else {
            1int
        },
    {
        if i == list.len() {
            list.push(candidate);
            done = true;
        } else if list[i] == candidate {
            done = true;
        } else if keys[i] > candidate_key {
            list.insert(i, candidate);
            done = true;
        } else {
            i = i + 1;
        }
    }
    list
}

} // verus!
