//! An arena graph whose vertices each hold a value and a short, ordered list of
//! references to other vertices.
//!
//! Vertices live in insertion order inside the arena and are designated by
//! their position. Removing vertices (`Graph::retain`) compacts the arena and
//! renumbers every surviving reference, dropping the references aimed at removed
//! vertices, so a neighbor list never designates a vertex that is gone.
use vstd::prelude::*;

verus! {

/// A vertex of a graph: the position of its node in the arena.
///
/// A handle stays valid until the next `Graph::retain`.
#[derive(Clone, Copy, Debug, PartialEq, Eq, Structural)]
pub struct Vertex {
    index: usize,
}

/// A reference from one vertex to another, as stored in a neighbor list.
#[derive(Clone, Copy, Debug, PartialEq, Eq, Structural)]
pub struct Neighbor {
    target: usize,
}

impl View for Vertex {
    type V = usize;

    closed spec fn view(&self) -> usize {
        self.index
    }
}

impl View for Neighbor {
    type V = usize;

    closed spec fn view(&self) -> usize {
        self.target
    }
}

/// The vertices of a graph, in insertion order, with their data and neighbors.
pub struct Graph<D> {
    data: Vec<D>,
    links: Vec<Vec<usize>>,
}

/// Number of positions before `i` whose flag is set: the new position of a kept
/// vertex after compaction.
pub open spec fn rank(keep: Seq<bool>, i: int) -> nat
    decreases i,
{
    if i <= 0 {
        0
    } else {
        rank(keep, i - 1) + if keep[i - 1] { 1nat } else { 0nat }
    }
}

/// A neighbor list after compaction: references to dropped vertices removed, the
/// others renumbered, order kept.
pub open spec fn remap(ns: Seq<usize>, keep: Seq<bool>) -> Seq<usize>
    decreases ns.len(),
{
    if ns.len() == 0 {
        Seq::empty()
    } else {
        let r = remap(ns.drop_last(), keep);
        if keep[ns.last() as int] {
            r.push(rank(keep, ns.last() as int) as usize)
        } else {
            r
        }
    }
}

/// The entries of `s` whose flag is set, in order.
pub open spec fn kept<T>(s: Seq<T>, keep: Seq<bool>) -> Seq<T>
    decreases s.len(),
{
    if s.len() == 0 {
        s
    } else {
        let r = kept(s.drop_last(), keep);
        if keep[s.len() - 1] {
            r.push(s.last())
        } else {
            r
        }
    }
}

/// Every neighbor list after compaction.
pub open spec fn relinked(lists: Seq<Seq<usize>>, keep: Seq<bool>) -> Seq<Seq<usize>> {
    Seq::new(lists.len(), |i: int| remap(lists[i], keep))
}

/// A kept entry sits at its new position.
pub proof fn lemma_kept<T>(s: Seq<T>, keep: Seq<bool>)
    requires
        s.len() <= keep.len(),
    ensures
        kept(s, keep).len() == rank(keep, s.len() as int),
        forall|i: int|
            0 <= i < s.len() && keep[i] ==> kept(s, keep)[rank(keep, i) as int] == #[trigger] s[i],
    decreases s.len(),
{
    if s.len() > 0 {
        let p = s.drop_last();
        lemma_kept(p, keep);
        let n = s.len() - 1;
        assert forall|i: int| 0 <= i < s.len() && keep[i] implies kept(s, keep)[rank(
            keep,
            i,
        ) as int] == #[trigger] s[i] by {
            if i < n {
                lemma_rank_strict(keep, i, n);
                assert(p[i] == s[i]);
            }
        }
    }
}

/// Two sequences that place the kept entries of `s` at their new positions, and
/// have as many entries as are kept, are the compaction of `s`.
pub proof fn lemma_kept_equal<T>(s: Seq<T>, keep: Seq<bool>, t: Seq<T>)
    requires
        s.len() == keep.len(),
        t.len() == rank(keep, s.len() as int),
        forall|i: int| 0 <= i < s.len() && keep[i] ==> t[rank(keep, i) as int] == #[trigger] s[i],
    ensures
        t == kept(s, keep),
{
    lemma_kept(s, keep);
    assert forall|k: int| 0 <= k < t.len() implies t[k] == kept(s, keep)[k] by {
        lemma_rank_onto(keep, s.len() as int, k);
        let i = choose|i: int| 0 <= i < s.len() && keep[i] && rank(keep, i) == k;
        assert(t[rank(keep, i) as int] == s[i]);
    }
    assert(t =~= kept(s, keep));
}

/// Neighbor references viewed as positions.
pub open spec fn targets(ns: Seq<Neighbor>) -> Seq<usize> {
    ns.map_values(|n: Neighbor| n@)
}

/// Every reference of `ns` designates one of the first `len` positions.
pub open spec fn in_range(ns: Seq<usize>, len: nat) -> bool {
    forall|k: int| 0 <= k < ns.len() ==> ns[k] < len
}

/// A new position is at most the old one, and below the number of kept entries.
pub proof fn lemma_rank_bounds(keep: Seq<bool>, i: int)
    requires
        0 <= i <= keep.len(),
    ensures
        rank(keep, i) <= i,
        rank(keep, i) <= rank(keep, keep.len() as int),
    decreases keep.len() - i,
{
    lemma_rank_le(keep, i);
    if i < keep.len() {
        lemma_rank_bounds(keep, i + 1);
    }
}

/// A new position is at most the old one.
proof fn lemma_rank_le(keep: Seq<bool>, i: int)
    ensures
        rank(keep, i) <= if i < 0 { 0 } else { i },
    decreases i,
{
    if i > 0 {
        lemma_rank_le(keep, i - 1);
    }
}

/// Kept positions keep their relative order after compaction.
pub proof fn lemma_rank_strict(keep: Seq<bool>, i: int, j: int)
    requires
        0 <= i < j <= keep.len(),
        keep[i],
    ensures
        rank(keep, i) < rank(keep, j),
    decreases j - i,
{
    if j > i + 1 {
        lemma_rank_strict(keep, i, j - 1);
    }
}

/// Every position below the number of kept entries is the new position of one
/// of them.
pub proof fn lemma_rank_onto(keep: Seq<bool>, n: int, k: int)
    requires
        0 <= n <= keep.len(),
        0 <= k < rank(keep, n),
    ensures
        exists|i: int| 0 <= i < n && keep[i] && rank(keep, i) == k,
    decreases n,
{
    if rank(keep, n - 1) == k {
        assert(keep[n - 1]);
    } else {
        lemma_rank_onto(keep, n - 1, k);
        let i = choose|i: int| 0 <= i < n - 1 && keep[i] && rank(keep, i) == k;
        assert(0 <= i < n && keep[i] && rank(keep, i) == k);
    }
}

/// Two distinct kept positions get distinct new positions.
pub proof fn lemma_rank_injective(keep: Seq<bool>, i: int, j: int)
    requires
        0 <= i < keep.len(),
        0 <= j < keep.len(),
        keep[i],
        keep[j],
        i != j,
    ensures
        rank(keep, i) != rank(keep, j),
{
    if i < j {
        lemma_rank_strict(keep, i, j);
    } else {
        lemma_rank_strict(keep, j, i);
    }
}

/// What a compacted list holds: the new positions of the kept references.
pub proof fn lemma_remap_contains(ns: Seq<usize>, keep: Seq<bool>, x: usize)
    requires
        in_range(ns, keep.len()),
    ensures
        remap(ns, keep).contains(x) <==> exists|k: int|
            0 <= k < ns.len() && keep[ns[k] as int] && rank(keep, ns[k] as int) == x,
        remap(ns, keep).len() <= ns.len(),
        in_range(remap(ns, keep), rank(keep, keep.len() as int)),
    decreases ns.len(),
{
    if ns.len() > 0 {
        let p = ns.drop_last();
        lemma_remap_contains(p, keep, x);
        let r = remap(p, keep);
        let last = ns.last() as int;
        lemma_rank_bounds(keep, last);
        if keep[last] {
            lemma_rank_strict(keep, last, keep.len() as int);
        }
        if remap(ns, keep).contains(x) {
            if r.contains(x) {
                let k = choose|k: int|
                    0 <= k < p.len() && keep[p[k] as int] && rank(keep, p[k] as int) == x;
                assert(ns[k] == p[k]);
            } else {
                assert(ns[ns.len() - 1] == ns.last());
            }
        }
        if exists|k: int| 0 <= k < ns.len() && keep[ns[k] as int] && rank(keep, ns[k] as int) == x {
            let k = choose|k: int|
                0 <= k < ns.len() && keep[ns[k] as int] && rank(keep, ns[k] as int) == x;
            if k < ns.len() - 1 {
                assert(p[k] == ns[k]);
                assert(r.contains(x));
                let w = choose|w: int| 0 <= w < r.len() && r[w] == x;
                assert(remap(ns, keep)[w] == x);
            } else {
                assert(remap(ns, keep).last() == x);
                assert(remap(ns, keep)[remap(ns, keep).len() - 1] == x);
            }
        }
        assert forall|k: int| 0 <= k < remap(ns, keep).len() implies remap(ns, keep)[k] < rank(
            keep,
            keep.len() as int,
        ) by {
            if k < r.len() {
                assert(remap(ns, keep)[k] == r[k]);
            }
        }
    }
}

/// Compaction keeps a list free of duplicates.
pub proof fn lemma_remap_no_duplicates(ns: Seq<usize>, keep: Seq<bool>)
    requires
        in_range(ns, keep.len()),
        ns.no_duplicates(),
    ensures
        remap(ns, keep).no_duplicates(),
    decreases ns.len(),
{
    if ns.len() > 0 {
        let p = ns.drop_last();
        let last = ns.last() as int;
        lemma_remap_no_duplicates(p, keep);
        if keep[last] {
            let x = rank(keep, last) as usize;
            lemma_rank_bounds(keep, last);
            lemma_remap_contains(p, keep, x);
            if remap(p, keep).contains(x) {
                let k = choose|k: int|
                    0 <= k < p.len() && keep[p[k] as int] && rank(keep, p[k] as int) == x;
                lemma_rank_bounds(keep, p[k] as int);
                if p[k] as int != last {
                    lemma_rank_injective(keep, p[k] as int, last);
                }
                assert(ns[k] == p[k]);
                assert(ns[ns.len() - 1] == ns.last());
            }
        }
    }
}

impl<D> Graph<D> {
    /// The data of the vertices, in insertion order.
    pub closed spec fn values(&self) -> Seq<D> {
        self.data@
    }

    /// The neighbor list of each vertex, as positions.
    pub closed spec fn adjacency(&self) -> Seq<Seq<usize>> {
        self.links@.map_values(|l: Vec<usize>| l@)
    }

    /// Number of vertices.
    pub open spec fn size(&self) -> nat {
        self.values().len()
    }

    /// One neighbor list per vertex, and every reference designates a vertex.
    pub open spec fn wf(&self) -> bool {
        &&& self.adjacency().len() == self.values().len()
        &&& forall|i: int| 0 <= i < self.size() ==> in_range(#[trigger] self.adjacency()[i], self.size())
    }

    /// An empty graph.
    pub fn new() -> (g: Self)
        ensures
            g.wf(),
            g.values() == Seq::<D>::empty(),
    {
        Graph { data: Vec::new(), links: Vec::new() }
    }

    /// Number of vertices.
    pub fn len(&self) -> (r: usize)
        requires
            self.wf(),
        ensures
            r == self.size(),
    {
        self.data.len()
    }

    /// The vertex at position `i`.
    pub fn vertex(&self, i: usize) -> (v: Vertex)
        requires
            i < self.size(),
        ensures
            v@ == i,
    {
        Vertex { index: i }
    }

    /// Appends a vertex holding `data` with the given neighbors.
    pub fn add(&mut self, data: D, neighbors: Vec<Neighbor>) -> (v: Vertex)
        requires
            old(self).wf(),
            in_range(targets(neighbors@), old(self).size()),
            old(self).size() < usize::MAX,
        ensures
            final(self).wf(),
            v@ == old(self).size(),
            final(self).values() == old(self).values().push(data),
            final(self).adjacency() == old(self).adjacency().push(targets(neighbors@)),
    {
        let ns = positions(&neighbors);
        let v = Vertex { index: self.data.len() };
        self.data.push(data);
        self.links.push(ns);
        proof {
            assert(self.adjacency() =~= old(self).adjacency().push(targets(neighbors@)));
            assert forall|i: int| 0 <= i < self.size() implies in_range(
                #[trigger] self.adjacency()[i],
                self.size(),
            ) by {
                if i < old(self).size() {
                    assert(self.adjacency()[i] == old(self).adjacency()[i]);
                }
            }
        }
        v
    }

    /// Keeps the vertices whose flag is set, in order, and drops the others
    /// together with every reference aimed at them.
    pub fn retain(&mut self, keep: &Vec<bool>)
        requires
            old(self).wf(),
            keep@.len() == old(self).size(),
        ensures
            final(self).wf(),
            final(self).size() == rank(keep@, keep@.len() as int),
            forall|i: int|
                0 <= i < old(self).size() && keep@[i] ==> final(self).values()[rank(keep@, i) as int]
                    == #[trigger] old(self).values()[i],
            forall|i: int|
                0 <= i < old(self).size() && keep@[i] ==> final(self).adjacency()[rank(
                    keep@,
                    i,
                ) as int] == remap(#[trigger] old(self).adjacency()[i], keep@),
    {
        let n = self.data.len();
        let ghost old_adj = self.adjacency();
        let ghost old_values = self.values();
        // new position of each vertex
        let mut new_index: Vec<usize> = Vec::new();
        let mut count: usize = 0;
        let mut i: usize = 0;
        while i < n
            invariant
                i <= n,
                n == keep@.len(),
                count == rank(keep@, i as int),
                new_index@.len() == i,
                forall|j: int| 0 <= j < i ==> new_index@[j] == rank(keep@, j),
            decreases n - i,
        {
            proof {
                lemma_rank_bounds(keep@, i as int);
            }
            new_index.push(count);
            if keep[i] {
                count = count + 1;
            }
            i = i + 1;
        }
        let mut old_data: Vec<D> = Vec::new();
        let mut old_links: Vec<Vec<usize>> = Vec::new();
        std::mem::swap(&mut old_data, &mut self.data);
        std::mem::swap(&mut old_links, &mut self.links);
        let ghost links_all = old_links@;
        let ghost total = rank(keep@, n as int);
        i = 0;
        while i < n
            invariant
                i <= n,
                n == keep@.len(),
                n == old_values.len(),
                n == old_adj.len(),
                old_adj == links_all.map_values(|l: Vec<usize>| l@),
                total == rank(keep@, n as int),
                old_data@ == old_values.subrange(i as int, n as int),
                old_links@ == links_all.subrange(i as int, n as int),
                new_index@.len() == n,
                forall|j: int| 0 <= j < n ==> new_index@[j] == rank(keep@, j),
                forall|j: int| 0 <= j < n ==> in_range(#[trigger] old_adj[j], n as nat),
                self.data@.len() == rank(keep@, i as int),
                self.links@.len() == self.data@.len(),
                forall|j: int|
                    0 <= j < i && keep@[j] ==> self.data@[rank(keep@, j) as int]
                        == #[trigger] old_values[j],
                forall|j: int|
                    0 <= j < i && keep@[j] ==> self.links@[rank(keep@, j) as int]@ == remap(
                        #[trigger] old_adj[j],
                        keep@,
                    ),
            decreases n - i,
        {
            let d = old_data.remove(0);
            let l = old_links.remove(0);
            proof {
                assert(d == old_values[i as int]);
                assert(l == links_all[i as int]);
                assert(l@ == old_adj[i as int]);
                lemma_rank_bounds(keep@, i as int);
            }
            if keep[i] {
                let l2 = renumber(&l, keep, &new_index);
                let ghost data_before = self.data@;
                let ghost links_before = self.links@;
                self.data.push(d);
                self.links.push(l2);
                proof {
                    assert(self.data@ == data_before.push(d));
                    assert(self.links@ == links_before.push(l2));
                    assert forall|j: int| 0 <= j < i + 1 && keep@[j] implies self.data@[rank(
                        keep@,
                        j,
                    ) as int] == #[trigger] old_values[j] by {
                        if j < i {
                            lemma_rank_strict(keep@, j, i as int);
                        }
                    }
                    assert forall|j: int| 0 <= j < i + 1 && keep@[j] implies self.links@[rank(
                        keep@,
                        j,
                    ) as int]@ == remap(#[trigger] old_adj[j], keep@) by {
                        if j < i {
                            lemma_rank_strict(keep@, j, i as int);
                        }
                    }
                }
            }
            i = i + 1;
        }
        proof {
            assert forall|k: int| 0 <= k < self.size() implies in_range(
                #[trigger] self.adjacency()[k],
                self.size(),
            ) by {
                lemma_rank_onto(keep@, n as int, k);
                let j = choose|j: int| 0 <= j < n && keep@[j] && rank(keep@, j) == k;
                assert(self.adjacency()[k] == self.links@[k]@);
                lemma_remap_contains(old_adj[j], keep@, 0);
            }
            assert forall|j: int| 0 <= j < n && keep@[j] implies self.adjacency()[rank(
                keep@,
                j,
            ) as int] == remap(#[trigger] old_adj[j], keep@) by {
                lemma_rank_strict(keep@, j, n as int);
                assert(self.adjacency()[rank(keep@, j) as int] == self.links@[rank(
                    keep@,
                    j,
                ) as int]@);
            }
        }
    }
}

/// The positions that a list of neighbor references designates.
fn positions(neighbors: &Vec<Neighbor>) -> (r: Vec<usize>)
    ensures
        r@ == targets(neighbors@),
{
    let mut r: Vec<usize> = Vec::new();
    let mut i: usize = 0;
    while i < neighbors.len()
        invariant
            i <= neighbors@.len(),
            r@ == targets(neighbors@.subrange(0, i as int)),
        decreases neighbors@.len() - i,
    {
        r.push(neighbors[i].target);
        i = i + 1;
        proof {
            assert(targets(neighbors@.subrange(0, i as int)) =~= targets(
                neighbors@.subrange(0, i - 1),
            ).push(neighbors@[i - 1]@));
        }
    }
    proof {
        assert(neighbors@.subrange(0, neighbors@.len() as int) =~= neighbors@);
    }
    r
}

/// A neighbor list after compaction, given the new position of every vertex.
fn renumber(l: &Vec<usize>, keep: &Vec<bool>, new_index: &Vec<usize>) -> (r: Vec<usize>)
    requires
        in_range(l@, keep@.len()),
        new_index@.len() == keep@.len(),
        forall|j: int| 0 <= j < keep@.len() ==> new_index@[j] == rank(keep@, j),
    ensures
        r@ == remap(l@, keep@),
{
    let mut r: Vec<usize> = Vec::new();
    let mut k: usize = 0;
    while k < l.len()
        invariant
            k <= l@.len(),
            in_range(l@, keep@.len()),
            new_index@.len() == keep@.len(),
            forall|j: int| 0 <= j < keep@.len() ==> new_index@[j] == rank(keep@, j),
            r@ == remap(l@.subrange(0, k as int), keep@),
        decreases l@.len() - k,
    {
        let t = l[k];
        proof {
            let s = l@.subrange(0, k + 1);
            assert(s.drop_last() =~= l@.subrange(0, k as int));
            assert(s.last() == t);
        }
        if keep[t] {
            r.push(new_index[t]);
        }
        k = k + 1;
    }
    proof {
        assert(l@.subrange(0, l@.len() as int) =~= l@);
    }
    r
}

impl Vertex {
    /// Appends a new vertex holding `data`, with no neighbors, to `graph`.
    pub fn new<D>(graph: &mut Graph<D>, data: D) -> (v: Vertex)
        requires
            old(graph).wf(),
            old(graph).size() < usize::MAX,
        ensures
            final(graph).wf(),
            v@ == old(graph).size(),
            final(graph).values() == old(graph).values().push(data),
            final(graph).adjacency() == old(graph).adjacency().push(Seq::<usize>::empty()),
    {
        let v = graph.add(data, Vec::new());
        proof {
            assert(targets(Seq::<Neighbor>::empty()) =~= Seq::<usize>::empty());
        }
        v
    }

    /// Position of this vertex in its graph.
    pub fn index(&self) -> (r: usize)
        ensures
            r == self@,
    {
        self.index
    }

    /// A reference to this vertex, to store in another vertex's neighbor list.
    pub fn as_neighbor(&self) -> (n: Neighbor)
        ensures
            n@ == self@,
    {
        Neighbor { target: self.index }
    }

    /// The vertices listed as neighbors of this vertex, in order.
    pub fn iter_neighbors<D>(&self, graph: &Graph<D>) -> (r: Vec<Vertex>)
        requires
            graph.wf(),
            self@ < graph.size(),
        ensures
            r@.map_values(|v: Vertex| v@) == graph.adjacency()[self@ as int],
            forall|k: int| 0 <= k < r@.len() ==> #[trigger] r@[k]@ < graph.size(),
    {
        let l = &graph.links[self.index];
        let mut r: Vec<Vertex> = Vec::new();
        let mut k: usize = 0;
        proof {
            assert(l@ == graph.adjacency()[self@ as int]);
        }
        while k < l.len()
            invariant
                k <= l@.len(),
                r@.len() == k,
                forall|m: int| 0 <= m < k ==> #[trigger] r@[m]@ == l@[m],
            decreases l@.len() - k,
        {
            r.push(Vertex { index: l[k] });
            k = k + 1;
        }
        proof {
            assert(r@.map_values(|v: Vertex| v@) =~= l@);
        }
        r
    }

    /// Replaces the neighbor list of this vertex.
    pub fn set_neighbors<D>(&self, graph: &mut Graph<D>, neighbors: Vec<Neighbor>)
        requires
            old(graph).wf(),
            self@ < old(graph).size(),
            in_range(targets(neighbors@), old(graph).size()),
        ensures
            final(graph).wf(),
            final(graph).values() == old(graph).values(),
            final(graph).adjacency() == old(graph).adjacency().update(
                self@ as int,
                targets(neighbors@),
            ),
    {
        let ns = positions(&neighbors);
        graph.links.set(self.index, ns);
        proof {
            assert(graph.adjacency() =~= old(graph).adjacency().update(
                self@ as int,
                targets(neighbors@),
            ));
            assert forall|i: int| 0 <= i < graph.size() implies in_range(
                #[trigger] graph.adjacency()[i],
                graph.size(),
            ) by {
                if i != self@ {
                    assert(graph.adjacency()[i] == old(graph).adjacency()[i]);
                }
            }
        }
    }

    /// The data held by this vertex.
    pub fn deref_data<'a, D>(&self, graph: &'a Graph<D>) -> (r: &'a D)
        requires
            graph.wf(),
            self@ < graph.size(),
        ensures
            *r == graph.values()[self@ as int],
    {
        &graph.data[self.index]
    }

    /// Replaces the data held by this vertex.
    pub fn deref_data_mut<D>(&self, graph: &mut Graph<D>, data: D)
        requires
            old(graph).wf(),
            self@ < old(graph).size(),
        ensures
            final(graph).wf(),
            final(graph).values() == old(graph).values().update(self@ as int, data),
            final(graph).adjacency() == old(graph).adjacency(),
    {
        graph.data.set(self.index, data);
    }
}

impl Neighbor {
    /// Position of the vertex this reference designates.
    pub fn target(&self) -> (r: usize)
        ensures
            r == self@,
    {
        self.target
    }
}

} // verus!
