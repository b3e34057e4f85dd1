//! A directed graph over document identifiers, built one edge at a time, that
//! can report a cycle as soon as one exists.

use vstd::prelude::*;
use vstd::set_lib::{lemma_int_range, lemma_len_subset, set_int_range};

verus! {

/// The edge `(p[k], p[k + 1])` of the walk `p` is an edge of `g`.
pub open spec fn edge_at(g: Set<(Seq<char>, Seq<char>)>, p: Seq<Seq<char>>, k: int) -> bool {
    g.contains((p[k], p[k + 1]))
}

/// Every element of `p` is joined to the next one by an edge of `g`.
pub open spec fn is_walk(g: Set<(Seq<char>, Seq<char>)>, p: Seq<Seq<char>>) -> bool {
    forall|k: int| 0 <= k < p.len() - 1 ==> #[trigger] edge_at(g, p, k)
}

/// `p` is a walk of at least one edge that ends where it starts.
pub open spec fn is_closed_walk(g: Set<(Seq<char>, Seq<char>)>, p: Seq<Seq<char>>) -> bool {
    &&& p.len() >= 2
    &&& p[0] == p[p.len() - 1]
    &&& is_walk(g, p)
}

/// `g` holds a cycle: some vertex can be left and reached again.
pub open spec fn has_cycle(g: Set<(Seq<char>, Seq<char>)>) -> bool {
    exists|p: Seq<Seq<char>>| is_closed_walk(g, p)
}

/// `p` is a cycle of `g` that visits each of its vertices once before it
/// returns to the first: its length is the number of its distinct vertices
/// plus one.
pub open spec fn is_simple_cycle(g: Set<(Seq<char>, Seq<char>)>, p: Seq<Seq<char>>) -> bool {
    &&& is_closed_walk(g, p)
    &&& p.drop_last().no_duplicates()
}

/// A directed graph whose vertices are document identifiers.
///
/// Each identifier is stored once; an edge is kept as the position of its
/// target in the list of children of its source.
pub struct DependencyGraph {
    names: Vec<String>,
    children: Vec<Vec<usize>>,
}

impl DependencyGraph {
    /// The identifier stored at position `i`.
    pub closed spec fn name(&self, i: int) -> Seq<char> {
        self.names@[i]@
    }

    /// The number of stored identifiers.
    pub closed spec fn size(&self) -> int {
        self.names@.len() as int
    }

    /// There is an edge from position `i` to position `j`.
    pub closed spec fn adj(&self, i: int, j: int) -> bool {
        &&& 0 <= i < self.size()
        &&& 0 <= j < self.size()
        &&& exists|k: int| 0 <= k < self.children@[i]@.len() && #[trigger] self.children@[i]@[k] as int == j
    }

    /// Identifiers are stored once each, and children point at stored ones.
    pub closed spec fn wf(&self) -> bool {
        &&& self.children@.len() == self.names@.len()
        &&& forall|i: int, j: int|
            0 <= i < self.size() && 0 <= j < self.size() && i != j ==> #[trigger] self.name(i)
                != #[trigger] self.name(j)
        &&& forall|i: int, k: int|
            0 <= i < self.size() && 0 <= k < self.children@[i]@.len() ==> (
            #[trigger] self.children@[i]@[k]) < self.size()
    }
}

impl View for DependencyGraph {
    type V = Set<(Seq<char>, Seq<char>)>;

    /// The set of edges, each a pair (source, target).
    closed spec fn view(&self) -> Set<(Seq<char>, Seq<char>)> {
        Set::new(
            |e: (Seq<char>, Seq<char>)|
                exists|i: int, j: int|
                    #![trigger self.adj(i, j), self.name(i), self.name(j)]
                    self.adj(i, j) && self.name(i) == e.0 && self.name(j) == e.1,
        )
    }
}

/// Along a walk of `g` whose every edge lowers `rank`, the rank of the last
/// vertex is below that of the first, once the walk has an edge.
proof fn lemma_ranked_walk(g: Set<(Seq<char>, Seq<char>)>, rank: spec_fn(Seq<char>) -> int, p: Seq<Seq<char>>)
    requires
        is_walk(g, p),
        p.len() >= 2,
        forall|u: Seq<char>, v: Seq<char>| #[trigger] g.contains((u, v)) ==> rank(u) > rank(v),
    ensures
        rank(p[0]) > rank(p[p.len() - 1]),
    decreases p.len(),
{
    assert(edge_at(g, p, p.len() - 2));
    if p.len() > 2 {
        let q = p.drop_last();
        assert forall|k: int| 0 <= k < q.len() - 1 implies #[trigger] edge_at(g, q, k) by {
            assert(edge_at(g, p, k));
        }
        lemma_ranked_walk(g, rank, q);
    }
}

/// A graph whose every edge goes from a higher to a lower rank has no cycle.
pub proof fn lemma_ranked_acyclic(g: Set<(Seq<char>, Seq<char>)>, rank: spec_fn(Seq<char>) -> int)
    requires
        forall|u: Seq<char>, v: Seq<char>| #[trigger] g.contains((u, v)) ==> rank(u) > rank(v),
    ensures
        !has_cycle(g),
{
    if has_cycle(g) {
        let p = choose|p: Seq<Seq<char>>| is_closed_walk(g, p);
        lemma_ranked_walk(g, rank, p);
    }
}

/// A simple cycle has one entry more than it has distinct vertices: each
/// vertex once, and the first again at the end.
pub proof fn lemma_simple_cycle_len(g: Set<(Seq<char>, Seq<char>)>, p: Seq<Seq<char>>)
    requires
        is_simple_cycle(g, p),
    ensures
        p.len() == p.to_set().len() + 1,
{
    let d = p.drop_last();
    d.unique_seq_to_set();
    assert(p.to_set() =~= d.to_set()) by {
        assert forall|x: Seq<char>| p.to_set().contains(x) implies d.to_set().contains(x) by {
            let k = choose|k: int| 0 <= k < p.len() && p[k] == x;
            if k == p.len() - 1 {
                assert(d[0] == x);
            } else {
                assert(d[k] == x);
            }
        }
        assert forall|x: Seq<char>| d.to_set().contains(x) implies p.to_set().contains(x) by {
            let k = choose|k: int| 0 <= k < d.len() && d[k] == x;
            assert(p[k] == x);
        }
    }
}

/// Where the edge `(a, a)` is the only way round in `g` (every closed walk
/// stays on `a`), `g` has a cycle and the one simple cycle is `[a, a]`.
pub proof fn lemma_lone_self_loop(g: Set<(Seq<char>, Seq<char>)>, a: Seq<char>, c: Seq<Seq<char>>)
    requires
        g.contains((a, a)),
        forall|q: Seq<Seq<char>>, k: int| is_closed_walk(g, q) && 0 <= k < q.len() ==> #[trigger] q[k] == a,
    ensures
        has_cycle(g),
        is_simple_cycle(g, c) ==> c == seq![a, a],
{
    let w = seq![a, a];
    assert(edge_at(g, w, 0));
    assert(is_closed_walk(g, w));
    if is_simple_cycle(g, c) {
        assert(c[0] == a && c[1] == a);
        if c.len() > 2 {
            assert(c.drop_last()[0] == c.drop_last()[1]);
        }
        assert(c =~= w);
    }
}

/// In a graph whose edges are `a -> b` and `b -> a` alone, with `a` and `b`
/// distinct, there is a cycle, and a simple cycle is `[a, b, a]` or
/// `[b, a, b]`.
pub proof fn lemma_two_cycle(a: Seq<char>, b: Seq<char>, c: Seq<Seq<char>>)
    requires
        a != b,
    ensures
        has_cycle(set![(a, b), (b, a)]),
        is_simple_cycle(set![(a, b), (b, a)], c) ==> c == seq![a, b, a] || c == seq![b, a, b],
{
    let g = set![(a, b), (b, a)];
    let w = seq![a, b, a];
    assert(edge_at(g, w, 0) && edge_at(g, w, 1));
    assert(is_closed_walk(g, w));
    if is_simple_cycle(g, c) {
        assert(edge_at(g, c, 0));
        let d = c.drop_last();
        if c.len() == 2 {
            assert(false);
        } else if c.len() == 3 {
            assert(edge_at(g, c, 1));
            assert(c =~= seq![a, b, a] || c =~= seq![b, a, b]);
        } else {
            assert(edge_at(g, c, 1));
            assert(d[0] != d[2]);
            assert(false);
        }
    }
}

/// The entries of `s`, as integers.
spec fn ints(s: Seq<usize>) -> Seq<int> {
    s.map_values(|x: usize| x as int)
}

/// A vector of `n` marks, none set.
fn unmarked(n: usize) -> (r: Vec<bool>)
    ensures
        r@.len() == n,
        forall|i: int| 0 <= i < n ==> !#[trigger] r@[i],
{
    let mut r: Vec<bool> = Vec::new();
    while r.len() < n
        invariant
            r@.len() <= n,
            forall|i: int| 0 <= i < r@.len() ==> !#[trigger] r@[i],
        decreases n - r.len(),
    {
        r.push(false);
    }
    r
}

/// A vector of `n` empty links.
fn unlinked(n: usize) -> (r: Vec<Option<usize>>)
    ensures
        r@.len() == n,
        forall|i: int| 0 <= i < n ==> (#[trigger] r@[i]) is None,
{
    let mut r: Vec<Option<usize>> = Vec::new();
    while r.len() < n
        invariant
            r@.len() <= n,
            forall|i: int| 0 <= i < r@.len() ==> (#[trigger] r@[i]) is None,
        decreases n - r.len(),
    {
        r.push(None);
    }
    r
}

impl DependencyGraph {
    /// Constructs a new, empty `DependencyGraph`.
    pub fn new() -> (r: Self)
        ensures
            r.wf(),
            r@ == Set::<(Seq<char>, Seq<char>)>::empty(),
    {
        let r = DependencyGraph { names: Vec::new(), children: Vec::new() };
        assert(r@ =~= Set::<(Seq<char>, Seq<char>)>::empty());
        r
    }

    /// The position at which `s` is stored, if it is.
    fn position(&self, s: &String) -> (r: Option<usize>)
        requires
            self.wf(),
        ensures
            match r {
                Some(i) => i < self.size() && self.name(i as int) == s@,
                None => forall|i: int| 0 <= i < self.size() ==> self.name(i) != s@,
            },
    {
        let mut i: usize = 0;
        while i < self.names.len()
            invariant
                i <= self.size(),
                self.size() == self.names@.len(),
                forall|k: int| 0 <= k < i ==> self.name(k) != s@,
            decreases self.names.len() - i,
        {
            if self.names[i] == *s {
                return Some(i);
            }
            i += 1;
        }
        None
    }

    /// The position of `s`, which is stored first if it is not yet there.
    fn intern(&mut self, s: String) -> (r: usize)
        requires
            old(self).wf(),
        ensures
            final(self).wf(),
            final(self)@ == old(self)@,
            r < final(self).size(),
            final(self).name(r as int) == s@,
            old(self).size() <= final(self).size(),
            forall|i: int| 0 <= i < old(self).size() ==> final(self).name(i) == old(self).name(i),
            forall|i: int, j: int|
                0 <= i < old(self).size() && 0 <= j < old(self).size() ==> (final(self).adj(i, j)
                    <==> old(self).adj(i, j)),
    {
        match self.position(&s) {
            Some(i) => i,
            None => {
                let ghost before = *self;
                let i = self.names.len();
                self.names.push(s);
                self.children.push(Vec::new());
                assert forall|k: int, j: int|
                    0 <= k < self.size() && 0 <= j < self.size() && k != j implies #[trigger] self.name(k)
                        != #[trigger] self.name(j) by {
                    if k < i && j < i {
                        assert(before.name(k) != before.name(j));
                    } else if k < i {
                        assert(self.name(k) == before.name(k));
                    } else if j < i {
                        assert(self.name(j) == before.name(j));
                    }
                }
                assert forall|k: int, j: int| #[trigger] self.adj(k, j) implies k < i && j < i by {
                    if k < i {
                        let c = self.children@[k]@;
                        let m = choose|m: int| 0 <= m < c.len() && c[m] as int == j;
                        assert(before.children@[k]@[m] < i);
                    }
                }
                assert(self@ =~= before@) by {
                    assert forall|e: (Seq<char>, Seq<char>)| self@.contains(e) implies before@.contains(e) by {
                        let (k, j) = choose|k: int, j: int|
                            #![trigger self.adj(k, j)]
                            self.adj(k, j) && self.name(k) == e.0 && self.name(j) == e.1;
                        assert(k < i && j < i);
                        assert(self.children@[k] == before.children@[k]);
                        assert(before.adj(k, j));
                        assert(before.name(k) == self.name(k) && before.name(j) == self.name(j));
                    }
                    assert forall|e: (Seq<char>, Seq<char>)| before@.contains(e) implies self@.contains(e) by {
                        let (k, j) = choose|k: int, j: int|
                            #![trigger before.adj(k, j)]
                            before.adj(k, j) && before.name(k) == e.0 && before.name(j) == e.1;
                        assert(self.children@[k] == before.children@[k]);
                        assert(self.adj(k, j));
                        assert(before.name(k) == self.name(k) && before.name(j) == self.name(j));
                    }
                }
                i
            },
        }
    }

    /// Whether `j` is among the children of `i`.
    fn has_child(&self, i: usize, j: usize) -> (r: bool)
        requires
            i < self.children@.len(),
        ensures
            r == self.children@[i as int]@.contains(j),
    {
        let kids = &self.children[i];
        let mut k: usize = 0;
        while k < kids.len()
            invariant
                k <= kids@.len(),
                kids@ == self.children@[i as int]@,
                forall|m: int| 0 <= m < k ==> kids@[m] != j,
            decreases kids.len() - k,
        {
            if kids[k] == j {
                assert(kids@[k as int] == j);
                return true;
            }
            k += 1;
        }
        assert(!kids@.contains(j));
        false
    }

    /// Adds an edge from vertex `a` to vertex `b` to the `DependencyGraph`.
    /// Adding an edge that is already there changes nothing.
    pub fn add_edge(&mut self, a: String, b: String)
        requires
            old(self).wf(),
        ensures
            final(self).wf(),
            final(self)@ == old(self)@.insert((a@, b@)),
    {
        let ghost pair = (a@, b@);
        let ia = self.intern(a);
        let ib = self.intern(b);
        let ghost before = *self;
        if !self.has_child(ia, ib) {
            self.children[ia].push(ib);
            assert(self.children@[ia as int]@.last() == ib);
        }
        assert(self.children@[ia as int]@.contains(ib));
        assert(self.children@[ia as int]@ == before.children@[ia as int]@
            || self.children@[ia as int]@ == before.children@[ia as int]@.push(ib));
        assert forall|i: int| 0 <= i < self.size() && i != ia implies self.children@[i] == before.children@[i] by {}
        assert forall|i: int, k: int|
            0 <= i < self.size() && 0 <= k < self.children@[i]@.len() implies (
            #[trigger] self.children@[i]@[k]) < self.size() by {
            if i != ia || k < before.children@[i]@.len() {
                assert(self.children@[i]@[k] == before.children@[i]@[k]);
            }
        }
        assert(self.names@ == before.names@);
        assert forall|i: int, j: int| #[trigger] self.adj(i, j) <==> before.adj(i, j) || (i == ia && j == ib) by {
            if 0 <= i < self.size() && 0 <= j < self.size() {
                let c = self.children@[i]@;
                let d = before.children@[i]@;
                if i != ia {
                    assert(c == d);
                } else {
                    if self.adj(i, j) && j != ib {
                        let m = choose|m: int| 0 <= m < c.len() && c[m] as int == j;
                        assert(m < d.len());
                        assert(d[m] == c[m]);
                    }
                    if before.adj(i, j) {
                        let m = choose|m: int| 0 <= m < d.len() && d[m] as int == j;
                        assert(c[m] == d[m]);
                    }
                    if j == ib {
                        let m = choose|m: int| 0 <= m < c.len() && c[m] == ib;
                        assert(c[m] as int == j);
                    }
                }
            }
        }
        assert forall|i: int, j: int|
            0 <= i < self.size() && 0 <= j < self.size() && i != j implies #[trigger] self.name(i)
                != #[trigger] self.name(j) by {
            assert(before.name(i) != before.name(j));
        }
        assert(self.name(ia as int) == pair.0 && self.name(ib as int) == pair.1);
        assert(self@ =~= before@.insert(pair)) by {
            assert forall|e: (Seq<char>, Seq<char>)| self@.contains(e) implies before@.insert(pair).contains(e) by {
                let (k, j) = choose|k: int, j: int|
                    #![trigger self.adj(k, j)]
                    self.adj(k, j) && self.name(k) == e.0 && self.name(j) == e.1;
                if !(k == ia && j == ib) {
                    assert(before.adj(k, j));
                    assert(before.name(k) == e.0 && before.name(j) == e.1);
                }
            }
            assert forall|e: (Seq<char>, Seq<char>)| before@.insert(pair).contains(e) implies self@.contains(e) by {
                if e == pair {
                    assert(self.adj(ia as int, ib as int));
                } else {
                    let (k, j) = choose|k: int, j: int|
                        #![trigger before.adj(k, j)]
                        before.adj(k, j) && before.name(k) == e.0 && before.name(j) == e.1;
                    assert(self.adj(k, j));
                    assert(self.name(k) == e.0 && self.name(j) == e.1);
                }
            }
        }
    }

    /// Positions `p[k]` and `p[k + 1]` are joined by an edge.
    spec fn step(&self, p: Seq<int>, k: int) -> bool {
        self.adj(p[k], p[k + 1])
    }

    /// `p` is a walk over stored positions.
    spec fn iwalk(&self, p: Seq<int>) -> bool {
        &&& forall|k: int| 0 <= k < p.len() ==> 0 <= #[trigger] p[k] < self.size()
        &&& forall|k: int| 0 <= k < p.len() - 1 ==> #[trigger] self.step(p, k)
    }

    /// Position `b` can be reached from position `a` by zero or more edges.
    spec fn ireach(&self, a: int, b: int) -> bool {
        exists|p: Seq<int>| self.iwalk(p) && p.len() >= 1 && p[0] == a && p[p.len() - 1] == b
    }

    /// Position `x` lies on a cycle.
    spec fn on_icycle(&self, x: int) -> bool {
        exists|p: Seq<int>| self.iwalk(p) && p.len() >= 2 && p[0] == x && p[p.len() - 1] == x
    }

    /// The bookkeeping of the depth-first search: `stack` is the current path
    /// of the search, the vertices marked discovered are those on it, and no
    /// finished vertex lies on a cycle.
    spec fn dfs_state(&self, discovered: Seq<bool>, finished: Seq<bool>, stack: Seq<int>) -> bool {
        &&& discovered.len() == self.size()
        &&& finished.len() == self.size()
        &&& self.iwalk(stack)
        &&& stack.no_duplicates()
        &&& forall|x: int| 0 <= x < self.size() ==> (#[trigger] discovered[x] <==> stack.contains(x))
        &&& forall|x: int|
            0 <= x < self.size() && #[trigger] finished[x] ==> !discovered[x] && !self.on_icycle(x)
        &&& forall|x: int, c: int| 0 <= x < self.size() && finished[x] && #[trigger] self.adj(x, c) ==> finished[c]
    }

    /// A vertex that reaches `b` is reached from any vertex with an edge to `b`.
    proof fn lemma_reach_prepend(&self, a: int, b: int, x: int)
        requires
            self.adj(a, b),
            self.ireach(b, x),
        ensures
            self.ireach(a, x),
    {
        let p = choose|p: Seq<int>| self.iwalk(p) && p.len() >= 1 && p[0] == b && p[p.len() - 1] == x;
        let q = seq![a] + p;
        assert forall|k: int| 0 <= k < q.len() - 1 implies #[trigger] self.step(q, k) by {
            if k > 0 {
                assert(self.step(p, k - 1));
            }
        }
        assert forall|k: int| 0 <= k < q.len() implies 0 <= #[trigger] q[k] < self.size() by {
            if k > 0 {
                assert(q[k] == p[k - 1]);
            }
        }
        assert(q[q.len() - 1] == x);
        assert(self.iwalk(q) && q[0] == a);
    }

    /// Every vertex reaches itself.
    proof fn lemma_reach_self(&self, a: int)
        requires
            0 <= a < self.size(),
        ensures
            self.ireach(a, a),
    {
        assert(self.iwalk(seq![a]));
    }

    proof fn lemma_distinct_len(s: Seq<int>, n: int)
        requires
            0 <= n,
            s.no_duplicates(),
            forall|k: int| 0 <= k < s.len() ==> 0 <= #[trigger] s[k] < n,
        ensures
            s.len() <= n,
    {
        s.unique_seq_to_set();
        lemma_int_range(0, n);
        lemma_len_subset(s.to_set(), set_int_range(0, n));
    }

    /// A piece of a walk is a walk.
    proof fn lemma_sub_walk(&self, p: Seq<int>, i: int, j: int)
        requires
            self.iwalk(p),
            0 <= i <= j <= p.len(),
        ensures
            self.iwalk(p.subrange(i, j)),
    {
        let q = p.subrange(i, j);
        assert forall|k: int| 0 <= k < q.len() - 1 implies #[trigger] self.step(q, k) by {
            assert(self.step(p, k + i));
        }
        assert forall|k: int| 0 <= k < q.len() implies 0 <= #[trigger] q[k] < self.size() by {
            assert(q[k] == p[k + i]);
        }
    }

    /// A cycle through `p[0]` is also a cycle through `p[1]`.
    proof fn lemma_rotate(&self, p: Seq<int>)
        requires
            self.iwalk(p),
            p.len() >= 2,
            p[0] == p[p.len() - 1],
        ensures
            self.on_icycle(p[1]),
    {
        let q = p.subrange(1, p.len() as int).push(p[1]);
        assert forall|k: int| 0 <= k < q.len() - 1 implies #[trigger] self.step(q, k) by {
            if k < q.len() - 2 {
                assert(self.step(p, k + 1));
            } else {
                assert(self.step(p, 0));
            }
        }
        assert forall|k: int| 0 <= k < q.len() implies 0 <= #[trigger] q[k] < self.size() by {
            if k < q.len() - 1 {
                assert(q[k] == p[k + 1]);
            }
        }
        assert(self.iwalk(q));
    }

    /// Returns the first back edge found while analysing a vertex and its
    /// children, as (ancestor, vertex): an edge from `vertex` to `ancestor`,
    /// which reaches `vertex` in turn. If no back edge exists, then `None` is
    /// returned and `vertex` is finished.
    fn dfs_visit(
        &self,
        vertex: usize,
        discovered: &mut Vec<bool>,
        finished: &mut Vec<bool>,
        Ghost(stack): Ghost<Seq<int>>,
    ) -> (r: Option<(usize, usize)>)
        requires
            self.wf(),
            vertex < self.size(),
            self.dfs_state(old(discovered)@, old(finished)@, stack),
            !old(discovered)@[vertex as int],
            !old(finished)@[vertex as int],
            stack.len() > 0 ==> self.adj(stack[stack.len() - 1], vertex as int),
        ensures
            final(discovered)@.len() == self.size(),
            final(finished)@.len() == self.size(),
            forall|x: int| 0 <= x < self.size() && #[trigger] final(finished)@[x] ==> !final(discovered)@[x],
            forall|x: int| 0 <= x < self.size() && old(finished)@[x] ==> #[trigger] final(finished)@[x],
            forall|x: int|
                0 <= x < self.size() && #[trigger] final(finished)@[x] && !old(finished)@[x] ==> self.ireach(
                    vertex as int,
                    x,
                ),
            r is None ==> {
                &&& final(discovered)@ == old(discovered)@
                &&& final(finished)@[vertex as int]
                &&& self.dfs_state(final(discovered)@, final(finished)@, stack)
                &&& forall|x: int|
                    0 <= x < self.size() && #[trigger] self.ireach(vertex as int, x) ==> final(finished)@[x]
                        && !self.on_icycle(x)
            },
            r matches Some((c, u)) ==> {
                &&& self.adj(u as int, c as int)
                &&& self.ireach(c as int, u as int)
                &&& final(discovered)@[c as int]
            },
        decreases self.size() - stack.len(),
    {
        let ghost path = stack.push(vertex as int);
        let ghost disc0 = discovered@;
        let ghost fin0 = finished@;
        discovered.set(vertex, true);
        proof {
            assert(path.no_duplicates());
            assert forall|k: int| 0 <= k < path.len() - 1 implies #[trigger] self.step(path, k) by {
                if k < stack.len() - 1 {
                    assert(self.step(stack, k));
                }
            }
            assert forall|k: int| 0 <= k < path.len() implies 0 <= #[trigger] path[k] < self.size() by {
                if k < stack.len() {
                    assert(path[k] == stack[k]);
                }
            }
            assert forall|x: int| 0 <= x < self.size() implies (#[trigger] discovered@[x] <==> path.contains(x)) by {
                if x != vertex {
                    if path.contains(x) {
                        let m = choose|m: int| 0 <= m < path.len() && path[m] == x;
                        assert(stack[m] == x);
                    }
                    if stack.contains(x) {
                        let m = choose|m: int| 0 <= m < stack.len() && stack[m] == x;
                        assert(path[m] == x);
                    }
                } else {
                    assert(path[path.len() - 1] == x);
                }
            }
            Self::lemma_distinct_len(path, self.size());
        }
        let kids = &self.children[vertex];
        let mut k: usize = 0;
        while k < kids.len()
            invariant
                self.wf(),
                vertex < self.size(),
                kids@ == self.children@[vertex as int]@,
                k <= kids@.len(),
                path == stack.push(vertex as int),
                path.len() <= self.size(),
                self.dfs_state(discovered@, finished@, path),
                discovered@ == disc0.update(vertex as int, true),
                fin0 == old(finished)@,
                !finished@[vertex as int],
                forall|x: int| 0 <= x < self.size() && fin0[x] ==> #[trigger] finished@[x],
                forall|x: int|
                    0 <= x < self.size() && #[trigger] finished@[x] && !fin0[x] ==> self.ireach(vertex as int, x),
                forall|m: int| 0 <= m < k ==> finished@[#[trigger] kids@[m] as int],
            decreases kids.len() - k,
        {
            let child = kids[k];
            assert(child < self.size());
            assert(self.adj(vertex as int, child as int));
            if discovered[child] {
                proof {
                    let m = choose|m: int| 0 <= m < path.len() && path[m] == child as int;
                    self.lemma_sub_walk(path, m, path.len() as int);
                    let q = path.subrange(m, path.len() as int);
                    assert(q[0] == child as int);
                    assert(q[q.len() - 1] == vertex as int);
                }
                return Some((child, vertex));
            }
            if !finished[child] {
                let ghost fin_mid = finished@;
                let r = self.dfs_visit(child, discovered, finished, Ghost(path));
                proof {
                    assert forall|x: int|
                        0 <= x < self.size() && #[trigger] finished@[x] && !fin0[x] implies self.ireach(
                            vertex as int,
                            x,
                        ) by {
                        if !fin_mid[x] {
                            self.lemma_reach_prepend(vertex as int, child as int, x);
                        }
                    }
                }
                match r {
                    Some(e) => {
                        return Some(e);
                    },
                    None => {},
                }
            }
            k += 1;
        }
        proof {
            assert forall|p: Seq<int>|
                self.iwalk(p) && p.len() >= 2 && p[0] == vertex as int && p[p.len() - 1] == vertex as int
                implies false by {
                assert(self.step(p, 0));
                let m = choose|m: int| 0 <= m < kids@.len() && #[trigger] kids@[m] as int == p[1];
                assert(finished@[kids@[m] as int]);
                self.lemma_rotate(p);
            }
        }
        let ghost fin_before = finished@;
        discovered.set(vertex, false);
        finished.set(vertex, true);
        proof {
            assert(discovered@ =~= disc0);
            self.lemma_reach_self(vertex as int);
            assert forall|x: int, c: int|
                0 <= x < self.size() && finished@[x] && #[trigger] self.adj(x, c) implies finished@[c] by {
                if x == vertex {
                    let m = choose|m: int| 0 <= m < kids@.len() && #[trigger] kids@[m] as int == c;
                    assert(finished@[kids@[m] as int]);
                } else {
                    assert(fin_before[x]);
                }
            }
            assert forall|x: int|
                0 <= x < self.size() && #[trigger] self.ireach(vertex as int, x) implies finished@[x] by {
                let p = choose|p: Seq<int>| self.iwalk(p) && p.len() >= 1 && p[0] == vertex as int && p[p.len() - 1] == x;
                self.lemma_closed_walk(finished@, p);
            }
            assert forall|x: int| 0 <= x < self.size() implies (#[trigger] discovered@[x] <==> stack.contains(x)) by {
                if x != vertex {
                    if path.contains(x) {
                        let m = choose|m: int| 0 <= m < path.len() && path[m] == x;
                        assert(stack[m] == x);
                    }
                    if stack.contains(x) {
                        let m = choose|m: int| 0 <= m < stack.len() && stack[m] == x;
                        assert(path[m] == x);
                    }
                }
            }
        }
        None
    }

    /// Returns the first back edge found in the `DependencyGraph` using DFS,
    /// started from every vertex that an earlier start has not finished.
    /// If no back edge exists, then `None` is returned and no vertex lies on
    /// a cycle.
    fn find_back_edge(&self) -> (r: Option<(usize, usize)>)
        requires
            self.wf(),
        ensures
            r is None ==> forall|x: int| 0 <= x < self.size() ==> !self.on_icycle(x),
            r matches Some((c, u)) ==> self.adj(u as int, c as int) && self.ireach(c as int, u as int),
    {
        let n = self.names.len();
        let mut discovered = unmarked(n);
        let mut finished = unmarked(n);
        let mut v: usize = 0;
        while v < n
            invariant
                self.wf(),
                n == self.size(),
                v <= n,
                self.dfs_state(discovered@, finished@, Seq::empty()),
                forall|x: int| 0 <= x < v ==> #[trigger] finished@[x],
            decreases n - v,
        {
            if !finished[v] {
                match self.dfs_visit(v, &mut discovered, &mut finished, Ghost(Seq::empty())) {
                    Some(e) => {
                        return Some(e);
                    },
                    None => {},
                }
            }
            v += 1;
        }
        assert forall|x: int| 0 <= x < self.size() implies !self.on_icycle(x) by {
            assert(finished@[x]);
        }
        None
    }

    /// The predecessor links left by a breadth-first search from `start`:
    /// each link goes back along an edge toward `start`, one level down.
    spec fn pred_tree(&self, pred: Seq<Option<usize>>, level: Seq<int>, start: int) -> bool {
        &&& pred.len() == self.size()
        &&& level.len() == self.size()
        &&& 0 <= start < self.size()
        &&& pred[start] is None
        &&& level[start] == 0
        &&& forall|x: int| 0 <= x < self.size() ==> #[trigger] level[x] >= 0
        &&& forall|x: int|
            0 <= x < self.size() && (#[trigger] pred[x]) is Some ==> {
                let p = pred[x]->0 as int;
                &&& 0 <= p < self.size()
                &&& self.adj(p, x)
                &&& (p == start || pred[p] is Some)
                &&& level[x] == level[p] + 1
            }
    }

    /// Where every vertex marked in `marked` has all its children marked,
    /// a walk that starts at a marked vertex ends at one.
    proof fn lemma_closed_walk(&self, marked: Seq<bool>, p: Seq<int>)
        requires
            self.iwalk(p),
            p.len() >= 1,
            marked[p[0]],
            forall|x: int, c: int|
                0 <= x < self.size() && marked[x] && #[trigger] self.adj(x, c) ==> marked[c],
        ensures
            marked[p[p.len() - 1]],
        decreases p.len(),
    {
        if p.len() > 1 {
            let q = p.drop_last();
            assert forall|k: int| 0 <= k < q.len() - 1 implies #[trigger] self.step(q, k) by {
                assert(self.step(p, k));
            }
            assert forall|k: int| 0 <= k < q.len() implies 0 <= #[trigger] q[k] < self.size() by {
                assert(q[k] == p[k]);
            }
            self.lemma_closed_walk(marked, q);
            assert(self.step(p, p.len() - 2));
        }
    }

    /// `p` is a walk from `a` to `x`.
    spec fn walk_to(&self, p: Seq<int>, a: int, x: int) -> bool {
        &&& self.iwalk(p)
        &&& p.len() >= 1
        &&& p[0] == a
        &&& p[p.len() - 1] == x
    }

    /// A walk of more than one vertex is a shorter walk followed by an edge.
    proof fn lemma_walk_last_edge(&self, p: Seq<int>, a: int, x: int)
        requires
            self.walk_to(p, a, x),
            p.len() >= 2,
        ensures
            self.walk_to(p.drop_last(), a, p[p.len() - 2]),
            self.adj(p[p.len() - 2], x),
    {
        let q = p.drop_last();
        assert forall|k: int| 0 <= k < q.len() - 1 implies #[trigger] self.step(q, k) by {
            assert(self.step(p, k));
        }
        assert forall|k: int| 0 <= k < q.len() implies 0 <= #[trigger] q[k] < self.size() by {
            assert(q[k] == p[k]);
        }
        assert(self.step(p, p.len() - 2));
    }

    /// A vertex reached from `a` reaches, by one more edge, that edge's target.
    proof fn lemma_reach_append(&self, a: int, b: int, c: int)
        requires
            self.ireach(a, b),
            self.adj(b, c),
        ensures
            self.ireach(a, c),
    {
        let p = choose|p: Seq<int>| self.iwalk(p) && p.len() >= 1 && p[0] == a && p[p.len() - 1] == b;
        let q = p.push(c);
        assert forall|k: int| 0 <= k < q.len() - 1 implies #[trigger] self.step(q, k) by {
            if k < p.len() - 1 {
                assert(self.step(p, k));
            }
        }
        assert forall|k: int| 0 <= k < q.len() implies 0 <= #[trigger] q[k] < self.size() by {
            if k < p.len() {
                assert(q[k] == p[k]);
            }
        }
        assert(self.iwalk(q) && q[0] == a && q[q.len() - 1] == c);
    }

    /// The bookkeeping of the breadth-first search, with `head` vertices of
    /// `queue` processed: levels rise along the queue and are the lengths of
    /// shortest walks from `start`; every vertex within `reach_bound` edges
    /// of `start` is visited; visited vertices are reached from `start`.
    spec fn bfs_levels(
        &self,
        queue: Seq<usize>,
        visited: Seq<bool>,
        level: Seq<int>,
        start: int,
        top: int,
        reach_bound: int,
    ) -> bool {
        &&& forall|m1: int, m2: int|
            #![trigger queue[m1], queue[m2]]
            0 <= m1 <= m2 < queue.len() ==> level[queue[m1] as int] <= level[queue[m2] as int]
        &&& forall|m: int| 0 <= m < queue.len() ==> level[#[trigger] queue[m] as int] <= top
        &&& forall|x: int, p: Seq<int>|
            0 <= x < self.size() && visited[x] && #[trigger] self.walk_to(p, start, x) ==> level[x] <= p.len() - 1
        &&& forall|y: int, p: Seq<int>|
            0 <= y < self.size() && #[trigger] self.walk_to(p, start, y) && p.len() - 1 <= reach_bound
                ==> visited[y]
        &&& forall|x: int| 0 <= x < self.size() && #[trigger] visited[x] ==> self.ireach(start, x)
    }

    /// Returns the predecessors of the shortest path from `start` to `end`
    /// using BFS, or `None` when `end` cannot be reached from `start`. The
    /// predecessors can then be used to reconstruct the path; they are all
    /// empty when `start` is `end`.
    fn find_shortest_path(&self, start: usize, end: usize) -> (r: Option<(Vec<Option<usize>>, Ghost<Seq<int>>)>)
        requires
            self.wf(),
            start < self.size(),
            end < self.size(),
        ensures
            r is None <==> !self.ireach(start as int, end as int),
            r matches Some((pred, level)) ==> {
                &&& self.pred_tree(pred@, level@, start as int)
                &&& end == start || pred@[end as int] is Some
                &&& forall|p: Seq<int>| #[trigger] self.walk_to(p, start as int, end as int) ==> p.len() - 1 >= level@[end as int]
                &&& start == end ==> forall|x: int| 0 <= x < self.size() ==> (#[trigger] pred@[x]) is None
            },
    {
        let n = self.names.len();
        let mut queue: Vec<usize> = Vec::new();
        queue.push(start);
        let mut head: usize = 0;
        let mut visited = unmarked(n);
        visited.set(start, true);
        let mut pred = unlinked(n);
        let ghost mut level: Seq<int> = Seq::new(n as nat, |i: int| 0int);
        proof {
            assert(ints(queue@) =~= seq![start as int]);
            assert forall|x: int| 0 <= x < n implies (#[trigger] visited@[x] <==> ints(queue@).contains(x)) by {
                if x == start {
                    assert(ints(queue@)[0] == x);
                }
            }
            self.lemma_reach_self(start as int);
            assert forall|y: int, p: Seq<int>|
                0 <= y < self.size() && #[trigger] self.walk_to(p, start as int, y) && p.len() - 1 <= 0 implies visited@[y] by {
                assert(p[0] == y);
            }
        }
        while head < queue.len()
            invariant
                self.wf(),
                n == self.size(),
                start < n,
                end < n,
                visited@.len() == n,
                1 <= queue@.len() <= n,
                head <= queue@.len(),
                queue@[0] == start,
                ints(queue@).no_duplicates(),
                forall|m: int| 0 <= m < queue@.len() ==> #[trigger] queue@[m] < n,
                forall|x: int| 0 <= x < n ==> (#[trigger] visited@[x] <==> ints(queue@).contains(x)),
                forall|x: int| 0 <= x < n ==> (#[trigger] visited@[x] <==> (x == start || pred@[x] is Some)),
                self.pred_tree(pred@, level, start as int),
                end != start ==> !visited@[end as int],
                end == start ==> head == 0,
                head == 0 ==> forall|x: int| 0 <= x < n ==> (#[trigger] pred@[x]) is None,
                forall|m: int, c: int|
                    #![trigger self.adj(queue@[m] as int, c)]
                    0 <= m < head && self.adj(queue@[m] as int, c) ==> visited@[c],
                head < queue@.len() ==> self.bfs_levels(
                    queue@,
                    visited@,
                    level,
                    start as int,
                    level[queue@[head as int] as int] + 1,
                    level[queue@[head as int] as int],
                ),
                head == queue@.len() ==> forall|x: int| 0 <= x < self.size() && #[trigger] visited@[x] ==> self.ireach(start as int, x),
            decreases n - head,
        {
            let vertex = queue[head];
            let ghost c = level[vertex as int];
            head += 1;
            if vertex == end {
                assert(ints(queue@)[head - 1] == end as int);
                assert(visited@[end as int]);
                return Some((pred, Ghost(level)));
            }
            let kids = &self.children[vertex];
            let mut k: usize = 0;
            while k < kids.len()
                invariant
                    self.wf(),
                    n == self.size(),
                    start < n,
                    end < n,
                    vertex < n,
                    vertex != end,
                    kids@ == self.children@[vertex as int]@,
                    k <= kids@.len(),
                    visited@.len() == n,
                    1 <= queue@.len() <= n,
                    1 <= head <= queue@.len(),
                    queue@[head - 1] == vertex,
                    queue@[0] == start,
                    ints(queue@).no_duplicates(),
                    forall|m: int| 0 <= m < queue@.len() ==> #[trigger] queue@[m] < n,
                    forall|x: int| 0 <= x < n ==> (#[trigger] visited@[x] <==> ints(queue@).contains(x)),
                    forall|x: int| 0 <= x < n ==> (#[trigger] visited@[x] <==> (x == start || pred@[x] is Some)),
                    self.pred_tree(pred@, level, start as int),
                    end != start ==> !visited@[end as int],
                    end != start,
                    forall|m: int, c: int|
                        #![trigger self.adj(queue@[m] as int, c)]
                        0 <= m < head - 1 && self.adj(queue@[m] as int, c) ==> visited@[c],
                    forall|j: int| 0 <= j < k ==> visited@[#[trigger] kids@[j] as int],
                    c == level[vertex as int],
                    self.bfs_levels(queue@, visited@, level, start as int, c + 1, c),
                decreases kids.len() - k,
            {
                let child = kids[k];
                assert(self.adj(vertex as int, child as int));
                if !visited[child] {
                    let ghost q0 = queue@;
                    let ghost v0 = visited@;
                    let ghost l0 = level;
                    proof {
                        assert(visited@[vertex as int]) by {
                            assert(ints(queue@)[head - 1] == vertex as int);
                        }
                        let q2 = ints(queue@).push(child as int);
                        assert(q2.no_duplicates());
                        assert forall|m: int| 0 <= m < q2.len() implies 0 <= #[trigger] q2[m] < n by {
                            if m < queue@.len() {
                                assert(q2[m] == queue@[m] as int);
                            }
                        }
                        Self::lemma_distinct_len(q2, n as int);
                        assert forall|m: int| 0 <= m < q0.len() implies #[trigger] q0[m] != child by {
                            assert(ints(q0)[m] == q0[m] as int);
                        }
                        self.lemma_reach_append(start as int, vertex as int, child as int);
                        level = level.update(child as int, c + 1);
                    }
                    queue.push(child);
                    visited.set(child, true);
                    pred.set(child, Some(vertex));
                    proof {
                        assert(ints(queue@) =~= ints(q0).push(child as int));
                        assert forall|x: int| 0 <= x < n implies (#[trigger] visited@[x] <==> ints(queue@).contains(x)) by {
                            if x == child {
                                assert(ints(queue@)[q0.len() as int] == x);
                            } else if ints(q0).contains(x) {
                                let m = choose|m: int| 0 <= m < q0.len() && ints(q0)[m] == x;
                                assert(ints(queue@)[m] == x);
                            } else if ints(queue@).contains(x) {
                                let m = choose|m: int| 0 <= m < queue@.len() && ints(queue@)[m] == x;
                                assert(m < q0.len());
                                assert(ints(q0)[m] == x);
                            }
                        }
                        assert forall|m1: int, m2: int|
                            #![trigger queue@[m1], queue@[m2]]
                            0 <= m1 <= m2 < queue@.len() implies level[queue@[m1] as int] <= level[queue@[m2] as int] by {
                            if m2 < q0.len() {
                                assert(l0[q0[m1] as int] <= l0[q0[m2] as int]);
                            } else if m1 < q0.len() {
                                assert(l0[q0[m1] as int] <= c + 1);
                            }
                        }
                        assert forall|m: int| 0 <= m < queue@.len() implies level[#[trigger] queue@[m] as int] <= c + 1 by {
                            if m < q0.len() {
                                assert(l0[q0[m] as int] <= c + 1);
                            }
                        }
                        assert forall|x: int, p: Seq<int>|
                            0 <= x < self.size() && visited@[x] && #[trigger] self.walk_to(p, start as int, x) implies level[x]
                                <= p.len() - 1 by {
                            if x == child {
                                if p.len() - 1 <= c {
                                    assert(v0[x]);
                                }
                            } else {
                                assert(v0[x]);
                            }
                        }
                        assert forall|y: int, p: Seq<int>|
                            0 <= y < self.size() && #[trigger] self.walk_to(p, start as int, y) && p.len() - 1 <= c implies visited@[y] by {
                            assert(v0[y]);
                        }
                        assert forall|x: int| 0 <= x < self.size() && #[trigger] visited@[x] implies self.ireach(start as int, x) by {
                            if x != child {
                                assert(v0[x]);
                            }
                        }
                    }
                    if child == end {
                        return Some((pred, Ghost(level)));
                    }
                }
                k += 1;
            }
            proof {
                if head < queue@.len() {
                    let c2 = level[queue@[head as int] as int];
                    assert(c <= c2) by {
                        assert(level[queue@[head - 1] as int] <= level[queue@[head as int] as int]);
                    }
                    assert(c2 <= c + 1);
                    assert forall|y: int, p: Seq<int>|
                        0 <= y < self.size() && #[trigger] self.walk_to(p, start as int, y) && p.len() - 1 <= c2 implies visited@[y] by {
                        if p.len() - 1 > c {
                            self.lemma_walk_last_edge(p, start as int, y);
                            let w = p[p.len() - 2];
                            assert(self.walk_to(p.drop_last(), start as int, w));
                            assert(visited@[w]);
                            assert(level[w] <= c);
                            let m = choose|m: int| 0 <= m < ints(queue@).len() && ints(queue@)[m] == w;
                            if m >= head {
                                assert(level[queue@[head as int] as int] <= level[queue@[m] as int]);
                            }
                            if m < head - 1 {
                                assert(self.adj(queue@[m] as int, y));
                            } else {
                                let j = choose|j: int| 0 <= j < kids@.len() && #[trigger] kids@[j] as int == y;
                                assert(visited@[kids@[j] as int]);
                            }
                        }
                    }
                    assert forall|m: int| 0 <= m < queue@.len() implies level[#[trigger] queue@[m] as int] <= c2 + 1 by {}
                }
            }
        }
        proof {
            let marked = visited@;
            assert forall|x: int, c: int|
                0 <= x < self.size() && marked[x] && #[trigger] self.adj(x, c) implies marked[c] by {
                let m = choose|m: int| 0 <= m < ints(queue@).len() && ints(queue@)[m] == x;
                assert(self.adj(queue@[m] as int, c));
            }
            if self.ireach(start as int, end as int) {
                let p = choose|p: Seq<int>|
                    self.iwalk(p) && p.len() >= 1 && p[0] == start as int && p[p.len() - 1] == end as int;
                self.lemma_closed_walk(marked, p);
            }
        }
        None
    }

    /// Returns the reconstructed cycle path from vertex `start` to vertex
    /// `end`, closed by the edge from `end` back to `start`. The vertex
    /// `start` is present twice, at the beginning and at the end of the result.
    #[verifier::rlimit(50)]
    fn reconstruct_cycle_path(
        &self,
        start: usize,
        end: usize,
        predecessors: &Vec<Option<usize>>,
        Ghost(level): Ghost<Seq<int>>,
    ) -> (path: Vec<usize>)
        requires
            self.wf(),
            end < self.size(),
            self.pred_tree(predecessors@, level, start as int),
            end == start || predecessors@[end as int] is Some,
            self.adj(end as int, start as int),
        ensures
            self.iwalk(ints(path@)),
            path@.len() >= 2,
            path@[0] == start,
            path@[path@.len() - 1] == start,
            path@[path@.len() - 2] == end,
            path@.len() == level[end as int] + 2,
            forall|i: int|
                1 <= i < path@.len() - 1 ==> predecessors@[#[trigger] path@[i] as int] == Some(path@[i - 1]),
            ints(path@).drop_last().no_duplicates(),
    {
        let n = self.names.len();
        let mut back: Vec<usize> = Vec::new();
        back.push(end);
        let mut crawl = end;
        while predecessors[crawl].is_some()
            invariant
                n == self.size(),
                self.pred_tree(predecessors@, level, start as int),
                crawl < n,
                crawl == start || predecessors@[crawl as int] is Some,
                back@.len() >= 1,
                back@[0] == end,
                back@[back@.len() - 1] == crawl,
                forall|i: int|
                    0 <= i < back@.len() ==> #[trigger] back@[i] < n && level[back@[i] as int] == level[end as int] - i,
                forall|i: int|
                    0 <= i < back@.len() - 1 ==> predecessors@[#[trigger] back@[i] as int] == Some(back@[i + 1]),
            decreases level[crawl as int],
        {
            let p = predecessors[crawl].unwrap();
            assert(level[crawl as int] >= 0 && level[p as int] >= 0);
            back.push(p);
            crawl = p;
        }
        let mut path: Vec<usize> = Vec::new();
        let mut i: usize = back.len();
        while i > 0
            invariant
                i <= back@.len(),
                path@.len() == back@.len() - i,
                forall|j: int| 0 <= j < path@.len() ==> #[trigger] path@[j] == back@[back@.len() - 1 - j],
            decreases i,
        {
            i -= 1;
            path.push(back[i]);
        }
        path.push(start);
        proof {
            let len = back@.len() as int;
            assert(level[back@[len - 1] as int] == level[end as int] - (len - 1));
            assert forall|i: int| 1 <= i < path@.len() - 1 implies predecessors@[#[trigger] path@[i] as int] == Some(
                path@[i - 1],
            ) by {
                assert(predecessors@[back@[len - 1 - i] as int] == Some(back@[len - 1 - i + 1]));
            }
            let q = ints(path@);
            assert forall|k: int| 0 <= k < q.len() implies 0 <= #[trigger] q[k] < self.size() by {
                if k < len {
                    assert(back@[len - 1 - k] < n);
                }
            }
            assert forall|k: int| 0 <= k < q.len() - 1 implies #[trigger] self.step(q, k) by {
                if k < len - 1 {
                    let b = len - 2 - k;
                    assert(predecessors@[back@[b] as int] == Some(back@[b + 1]));
                    assert(q[k] == back@[b + 1] as int);
                    assert(q[k + 1] == back@[b] as int);
                } else {
                    assert(q[k] == end as int);
                }
            }
            assert forall|a: int, b: int|
                0 <= a < q.drop_last().len() && 0 <= b < q.drop_last().len() && a != b implies q.drop_last()[a]
                != q.drop_last()[b] by {
                assert(level[back@[len - 1 - a] as int] != level[back@[len - 1 - b] as int]);
            }
        }
        path
    }

    /// A walk over positions, written with the identifiers stored there.
    spec fn names_of(&self, p: Seq<int>) -> Seq<Seq<char>> {
        p.map_values(|i: int| self.name(i))
    }

    /// A walk over positions is a walk over the identifiers stored there.
    proof fn lemma_lift_walk(&self, p: Seq<int>)
        requires
            self.wf(),
            self.iwalk(p),
        ensures
            is_walk(self@, self.names_of(p)),
    {
        let q = self.names_of(p);
        assert forall|k: int| 0 <= k < q.len() - 1 implies #[trigger] edge_at(self@, q, k) by {
            assert(self.step(p, k));
            assert(self.adj(p[k], p[k + 1]) && self.name(p[k]) == q[k] && self.name(p[k + 1]) == q[k + 1]);
        }
    }

    /// The position at which identifier `s` is stored, if any is.
    spec fn pos(&self, s: Seq<char>) -> int {
        choose|i: int| 0 <= i < self.size() && self.name(i) == s
    }

    /// A walk over identifiers, of at least one edge, is a walk over the
    /// positions where they are stored.
    proof fn lemma_lower_walk(&self, q: Seq<Seq<char>>) -> (p: Seq<int>)
        requires
            self.wf(),
            is_walk(self@, q),
            q.len() >= 2,
        ensures
            self.iwalk(p),
            p.len() == q.len(),
            forall|k: int| 0 <= k < q.len() ==> #[trigger] self.name(p[k]) == q[k],
    {
        let p = Seq::new(q.len(), |k: int| self.pos(q[k]));
        assert forall|k: int| 0 <= k < q.len() - 1 implies 0 <= p[k] < self.size() && 0 <= p[k + 1]
            < self.size() && self.name(p[k]) == q[k] && self.name(p[k + 1]) == q[k + 1] && #[trigger] self.step(p, k) by {
            assert(edge_at(self@, q, k));
            let (i, j) = choose|i: int, j: int|
                #![trigger self.adj(i, j)]
                self.adj(i, j) && self.name(i) == q[k] && self.name(j) == q[k + 1];
            assert(self.name(p[k]) == q[k]);
            assert(self.name(p[k + 1]) == q[k + 1]);
            assert(p[k] == i);
            assert(p[k + 1] == j);
        }
        assert forall|k: int| 0 <= k < p.len() implies 0 <= #[trigger] p[k] < self.size() by {
            if k < p.len() - 1 {
                assert(self.step(p, k));
            } else {
                assert(self.step(p, k - 1));
            }
        }
        assert forall|k: int| 0 <= k < q.len() implies #[trigger] self.name(p[k]) == q[k] by {
            if k < p.len() - 1 {
                assert(self.step(p, k));
            } else {
                assert(self.step(p, k - 1));
            }
        }
        p
    }

    /// A cycle over identifiers is a cycle over the positions where they are
    /// stored.
    proof fn lemma_lower_cycle(&self, q: Seq<Seq<char>>)
        requires
            self.wf(),
            is_closed_walk(self@, q),
        ensures
            self.on_icycle(self.pos(q[0])),
    {
        let p = self.lemma_lower_walk(q);
        assert(self.name(p[0]) == q[0]);
        assert(self.name(p[p.len() - 1]) == q[q.len() - 1]);
        assert(p[0] == p[p.len() - 1]);
        assert(self.name(self.pos(q[0])) == q[0]);
        assert(p[0] == self.pos(q[0]));
    }

    /// Returns the first cycle found in the `DependencyGraph`: its first and
    /// last identifiers are the same, each step follows an edge, and no
    /// identifier comes twice before the last. It is a shortest cycle closed
    /// by its last edge: no walk from its first identifier to the one before
    /// the last is shorter than its own. If no cycle exists, then `None` is
    /// returned.
    pub fn find_cycle(&self) -> (r: Option<Vec<String>>)
        requires
            self.wf(),
        ensures
            r is None <==> !has_cycle(self@),
            r matches Some(c) ==> is_simple_cycle(self@, c.deep_view()),
            r matches Some(c) ==> forall|w: Seq<Seq<char>>|
                #[trigger] is_walk(self@, w) && w.len() >= 1 && w[0] == c.deep_view()[0] && w[w.len() - 1]
                    == c.deep_view()[c@.len() - 2] ==> w.len() >= c@.len() - 1,
    {
        match self.find_back_edge() {
            Some((child, vertex)) => {
                let (predecessors, Ghost(level)) = match self.find_shortest_path(child, vertex) {
                    Some(found) => found,
                    None => {
                        // Not reached: `child` reaches `vertex`.
                        proof {
                            assert(false);
                        }
                        return None;
                    },
                };
                let cycle = self.reconstruct_cycle_path(child, vertex, &predecessors, Ghost(level));
                let mut names: Vec<String> = Vec::new();
                let mut k: usize = 0;
                while k < cycle.len()
                    invariant
                        self.wf(),
                        self.iwalk(ints(cycle@)),
                        k <= cycle@.len(),
                        names@.len() == k,
                        names.deep_view() == self.names_of(ints(cycle@)).take(k as int),
                    decreases cycle.len() - k,
                {
                    assert(cycle@[k as int] < self.size()) by {
                        assert(ints(cycle@)[k as int] == cycle@[k as int] as int);
                    }
                    let ghost before = names@;
                    names.push(self.names[cycle[k]].clone());
                    proof {
                        let want = self.names_of(ints(cycle@)).take(k + 1);
                        assert(names@ == before.push(names@[k as int]));
                        assert(names@[k as int]@ == self.name(cycle@[k as int] as int));
                        assert forall|j: int| 0 <= j <= k implies names.deep_view()[j] == want[j] by {
                            if j < k {
                                assert(names@[j] == before[j]);
                            }
                        }
                        assert(names.deep_view() =~= want);
                    }
                    k += 1;
                }
                proof {
                    let p = ints(cycle@);
                    let q = names.deep_view();
                    assert(q =~= self.names_of(p));
                    self.lemma_lift_walk(p);
                    assert forall|a: int, b: int|
                        0 <= a < q.drop_last().len() && 0 <= b < q.drop_last().len() && a != b implies q.drop_last()[a]
                        != q.drop_last()[b] by {
                        assert(p.drop_last()[a] != p.drop_last()[b]);
                        assert(self.name(p[a]) != self.name(p[b]));
                    }
                    assert(is_closed_walk(self@, q));
                    assert(p[0] == child as int && p[p.len() - 2] == vertex as int);
                    assert forall|w: Seq<Seq<char>>|
                        #[trigger] is_walk(self@, w) && w.len() >= 1 && w[0] == q[0] && w[w.len() - 1] == q[q.len() - 2]
                        implies w.len() >= q.len() - 1 by {
                        if w.len() == 1 {
                            assert(self.name(p[0]) == self.name(p[p.len() - 2]));
                            assert(child == vertex);
                        } else {
                            let pw = self.lemma_lower_walk(w);
                            assert(self.name(pw[0]) == self.name(child as int));
                            assert(pw[0] == child as int);
                            assert(self.name(pw[pw.len() - 1]) == self.name(vertex as int));
                            assert(pw[pw.len() - 1] == vertex as int);
                            assert(self.walk_to(pw, child as int, vertex as int));
                        }
                    }
                }
                Some(names)
            },
            None => {
                proof {
                    if has_cycle(self@) {
                        let q = choose|q: Seq<Seq<char>>| is_closed_walk(self@, q);
                        self.lemma_lower_cycle(q);
                    }
                }
                None
            },
        }
    }
}

} // verus!
