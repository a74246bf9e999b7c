//! Selection of the two candidates nearest to some point.
//!
//! Distances are given as `u64` keys whose order is the order of the distances
//! they stand for. Ties go to the candidate seen first.
use vstd::prelude::*;

verus! {

/// A candidate, by its position among the candidates, and its distance key.
#[derive(Clone, Copy, Debug, PartialEq, Eq, Structural)]
pub struct NeighborDist {
    pub coord: usize,
    pub dist: u64,
}

/// The two nearest candidates when they exist, nearest first.
#[derive(Clone, Copy, Debug, PartialEq, Eq, Structural)]
pub struct Neighborhood(pub Option<NeighborDist>, pub Option<NeighborDist>);

/// Candidate `x` comes before candidate `y`: it is nearer, or as near and seen
/// first.
pub open spec fn ahead(keys: Seq<u64>, x: int, y: int) -> bool {
    keys[x] < keys[y] || (keys[x] == keys[y] && x < y)
}

/// `x` and `y` are the nearest and the second nearest of the candidates.
pub open spec fn two_least(keys: Seq<u64>, x: int, y: int) -> bool {
    &&& 0 <= x < keys.len()
    &&& 0 <= y < keys.len()
    &&& x != y
    &&& ahead(keys, x, y)
    &&& forall|z: int| 0 <= z < keys.len() && z != x && z != y ==> #[trigger] ahead(keys, y, z)
}

/// `r` is the neighborhood of candidates whose distance keys are `keys`.
pub open spec fn is_neighborhood(keys: Seq<u64>, r: Neighborhood) -> bool {
    if keys.len() == 0 {
        r.0.is_none() && r.1.is_none()
    } else if keys.len() == 1 {
        r.0 == Some(NeighborDist { coord: 0, dist: keys[0] }) && r.1.is_none()
    } else {
        &&& r.0 is Some
        &&& r.1 is Some
        &&& two_least(keys, r.0->0.coord as int, r.1->0.coord as int)
        &&& r.0->0.dist == keys[r.0->0.coord as int]
        &&& r.1->0.dist == keys[r.1->0.coord as int]
    }
}

/// Every list of candidates has two nearest, when it has two candidates.
pub proof fn lemma_two_least_exists(keys: Seq<u64>)
    requires
        keys.len() >= 2,
    ensures
        exists|x: int, y: int| two_least(keys, x, y),
    decreases keys.len(),
{
    if keys.len() == 2 {
        if ahead(keys, 0, 1) {
            assert(two_least(keys, 0, 1));
        } else {
            assert(two_least(keys, 1, 0));
        }
    } else {
        let p = keys.drop_last();
        lemma_two_least_exists(p);
        let (x, y) = choose|x: int, y: int| two_least(p, x, y);
        let z = keys.len() - 1;
        assert forall|a: int| 0 <= a < p.len() implies #[trigger] keys[a] == p[a] by {}
        assert(keys[x] == p[x] && keys[y] == p[y]);
        if ahead(keys, z, x) {
            assert forall|w: int| 0 <= w < keys.len() && w != z && w != x implies #[trigger] ahead(
                keys,
                x,
                w,
            ) by {
                assert(keys[w] == p[w]);
                if w != y {
                    assert(ahead(p, y, w));
                }
            }
            assert(two_least(keys, z, x));
        } else if ahead(keys, z, y) {
            assert forall|w: int| 0 <= w < keys.len() && w != x && w != z implies #[trigger] ahead(
                keys,
                z,
                w,
            ) by {
                assert(keys[w] == p[w]);
                if w != y {
                    assert(ahead(p, y, w));
                }
            }
            assert(two_least(keys, x, z));
        } else {
            assert forall|w: int| 0 <= w < keys.len() && w != x && w != y implies #[trigger] ahead(
                keys,
                y,
                w,
            ) by {
                if w < z {
                    assert(keys[w] == p[w]);
                    assert(ahead(p, y, w));
                }
            }
            assert(two_least(keys, x, y));
        }
    }
}

/// Every list of candidates that positions can count has a neighborhood.
pub proof fn lemma_neighborhood_exists(keys: Seq<u64>)
    requires
        keys.len() <= usize::MAX,
    ensures
        exists|r: Neighborhood| is_neighborhood(keys, r),
{
    if keys.len() == 0 {
        assert(is_neighborhood(keys, Neighborhood(None, None)));
    } else if keys.len() == 1 {
        assert(is_neighborhood(
            keys,
            Neighborhood(Some(NeighborDist { coord: 0, dist: keys[0] }), None),
        ));
    } else {
        lemma_two_least_exists(keys);
        let (x, y) = choose|x: int, y: int| two_least(keys, x, y);
        let r = Neighborhood(
            Some(NeighborDist { coord: x as usize, dist: keys[x] }),
            Some(NeighborDist { coord: y as usize, dist: keys[y] }),
        );
        assert(is_neighborhood(keys, r));
    }
}

/// The distance keys of three candidates, in the order they were seen.
pub open spec fn keys3(d1: NeighborDist, d2: NeighborDist, d3: NeighborDist) -> Seq<u64> {
    seq![d1.dist, d2.dist, d3.dist]
}

impl NeighborDist {
    /// A candidate at position `coord` with distance key `dist`.
    pub fn new(coord: usize, dist: u64) -> (r: Self)
        ensures
            r.coord == coord,
            r.dist == dist,
    {
        NeighborDist { coord, dist }
    }

    /// Position of the candidate.
    pub fn coord(&self) -> (r: usize)
        ensures
            r == self.coord,
    {
        self.coord
    }

    /// Distance key of the candidate.
    pub fn dist(&self) -> (r: u64)
        ensures
            r == self.dist,
    {
        self.dist
    }
}

/// The two nearest of three candidates, nearest first, given in the order they
/// were seen.
pub fn smallest(d1: NeighborDist, d2: NeighborDist, d3: NeighborDist) -> (r: (
    NeighborDist,
    NeighborDist,
))
    ensures
        exists|x: int, y: int|
            two_least(keys3(d1, d2, d3), x, y) && r.0 == seq![d1, d2, d3][x] && r.1 == seq![
                d1,
                d2,
                d3,
            ][y],
{
    let ghost s = seq![d1, d2, d3];
    let ghost k = keys3(d1, d2, d3);
    let mut a = d1;
    let mut b = d2;
    let mut c = d3;
    let ghost mut xa: int = 0;
    let ghost mut xb: int = 1;
    let ghost mut xc: int = 2;
    if a.dist > b.dist {
        let t = a;
        a = b;
        b = t;
        proof {
            xa = 1;
            xb = 0;
        }
    }
    if b.dist > c.dist {
        let t = b;
        b = c;
        c = t;
        proof {
            let t = xb;
            xb = xc;
            xc = t;
        }
    }
    if a.dist > b.dist {
        let t = a;
        a = b;
        b = t;
        proof {
            let t = xa;
            xa = xb;
            xb = t;
        }
    }
    proof {
        assert(s[xa] == a && s[xb] == b && s[xc] == c);
        assert(k[xa] == a.dist && k[xb] == b.dist && k[xc] == c.dist);
        assert(two_least(k, xa, xb));
    }
    (a, b)
}

/// The two nearest candidates, nearest first, given the distance key of each.
pub fn get_neighborhood(keys: &Vec<u64>) -> (r: Neighborhood)
    ensures
        is_neighborhood(keys@, r),
{
    let n = keys.len();
    if n == 0 {
        return Neighborhood(None, None);
    }
    if n == 1 {
        return Neighborhood(Some(NeighborDist::new(0, keys[0])), None);
    }
    let mut first = NeighborDist::new(0, keys[0]);
    let mut second = NeighborDist::new(1, keys[1]);
    if first.dist > second.dist {
        let t = first;
        first = second;
        second = t;
    }
    proof {
        assert(two_least(keys@.subrange(0, 2), first.coord as int, second.coord as int));
    }
    let mut i: usize = 2;
    while i < n
        invariant
            2 <= i <= n,
            n == keys@.len(),
            two_least(keys@.subrange(0, i as int), first.coord as int, second.coord as int),
            first.dist == keys@[first.coord as int],
            second.dist == keys@[second.coord as int],
        decreases n - i,
    {
        let ghost prefix = keys@.subrange(0, i as int);
        let ghost next = keys@.subrange(0, i + 1);
        let third = NeighborDist::new(i, keys[i]);
        let ghost s = seq![first, second, third];
        let pair = smallest(first, second, third);
        proof {
            let (x, y) = choose|x: int, y: int|
                two_least(keys3(first, second, third), x, y) && pair.0 == s[x] && pair.1 == s[y];
            let k = keys3(first, second, third);
            assert forall|p: int, q: int| 0 <= p < 3 && 0 <= q < 3 && p != q implies (ahead(k, p, q)
                <==> ahead(next, s[p].coord as int, s[q].coord as int)) by {
                assert(next[s[p].coord as int] == k[p]);
                assert(next[s[q].coord as int] == k[q]);
            }
            assert forall|z: int|
                0 <= z < next.len() && z != pair.0.coord && z != pair.1.coord implies #[trigger] ahead(
                next,
                pair.1.coord as int,
                z,
            ) by {
                assert(s[2].coord == i);
                assert(two_least(k, x, y));
                if z == i {
                    assert(ahead(k, y, 2));
                } else {
                    assert(prefix[z] == next[z]);
                    assert(prefix[first.coord as int] == next[first.coord as int]);
                    assert(prefix[second.coord as int] == next[second.coord as int]);
                    if z == first.coord {
                        assert(s[0].coord == z);
                        assert(ahead(k, y, 0));
                    } else if z == second.coord {
                        assert(s[1].coord == z);
                        assert(ahead(k, y, 1));
                    } else {
                        assert(ahead(prefix, second.coord as int, z));
                        assert(ahead(prefix, first.coord as int, second.coord as int));
                        if y == 0 {
                            assert(ahead(k, 0, 1));
                        } else if y == 2 && x == 0 {
                            assert(ahead(k, 2, 1));
                        } else if y == 2 {
                            assert(ahead(k, 2, 0));
                            assert(ahead(next, first.coord as int, second.coord as int));
                            assert(ahead(next, second.coord as int, z));
                            assert(ahead(next, third.coord as int, first.coord as int));
                        }
                    }
                }
            }
        }
        first = pair.0;
        second = pair.1;
        i = i + 1;
    }
    proof {
        assert(keys@.subrange(0, n as int) =~= keys@);
    }
    Neighborhood(Some(first), Some(second))
}

} // verus!
