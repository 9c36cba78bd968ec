//! Graphs with numbered nodes, and the two things a cipher key is made of:
//! the key polynomial and the keystream that a graph's edges give.

use vstd::prelude::*;
use vstd::arithmetic::div_mod::{lemma_fundamental_div_mod, lemma_mod_bound, lemma_mod_mod};
use crate::affine::{lemma_odd_residue, odd_residue};
use crate::polynomials::{ints, Polynomial};
use crate::ring::{coef, conv, conv_sum, lemma_conv_sum_zero, poly_mul, reduced, EXT_MODULUS};

verus! {

/// The modulus of plaintext coefficients and of keystream values.
pub const BASE_MODULUS: i64 = 256;

/// A directed graph on the nodes `1..=n`, as the list of its edges in the
/// order in which they were added. Loops and repeated edges are allowed.
#[derive(Debug, PartialEq, Eq)]
pub struct Graph {
    pub n: usize,
    pub data: Vec<(usize, usize)>,
}

/// What a `Graph` stands for.
pub struct GraphModel {
    pub n: nat,
    pub edges: Seq<(int, int)>,
}

/// A list of machine-integer pairs as pairs of mathematical integers.
pub open spec fn pairs(s: Seq<(usize, usize)>) -> Seq<(int, int)> {
    Seq::new(s.len(), |i: int| (s[i].0 as int, s[i].1 as int))
}

impl View for Graph {
    type V = GraphModel;

    open spec fn view(&self) -> GraphModel {
        GraphModel { n: self.n as nat, edges: pairs(self.data@) }
    }
}

impl GraphModel {
    /// Every endpoint of every edge is one of the nodes `1..=n`.
    pub open spec fn wf(self) -> bool {
        forall|i: int|
            0 <= i < self.edges.len() ==> 1 <= (#[trigger] self.edges[i]).0 <= self.n && 1
                <= self.edges[i].1 <= self.n
    }
}

/// The order of edges: by first endpoint, then by second.
pub open spec fn edge_le(a: (int, int), b: (int, int)) -> bool {
    a.0 < b.0 || (a.0 == b.0 && a.1 <= b.1)
}

/// The ascending list `s` with `e` put in its place: behind every edge that
/// is not greater than `e`.
pub open spec fn insert_sorted(s: Seq<(int, int)>, e: (int, int)) -> Seq<(int, int)>
    decreases s.len(),
{
    if s.len() == 0 {
        seq![e]
    } else if edge_le(s.last(), e) {
        s.push(e)
    } else {
        insert_sorted(s.drop_last(), e).push(s.last())
    }
}

/// The edges of `s` in ascending order.
pub open spec fn sorted_edges(s: Seq<(int, int)>) -> Seq<(int, int)>
    decreases s.len(),
{
    if s.len() == 0 {
        Seq::empty()
    } else {
        insert_sorted(sorted_edges(s.drop_last()), s.last())
    }
}

/// Whether a list of edges ascends.
pub open spec fn ascending(s: Seq<(int, int)>) -> bool {
    forall|i: int, j: int| 0 <= i < j < s.len() ==> edge_le(#[trigger] s[i], #[trigger] s[j])
}

/// The value at position `i` of the keystream that the ascending edge list
/// `sorted` gives: each edge `(u, v)` contributes `1`, `u` and `v`, reduced
/// modulo 256.
pub open spec fn keystream_entry(sorted: Seq<(int, int)>, i: int) -> int {
    if i % 3 == 0 {
        1
    } else if i % 3 == 1 {
        sorted[i / 3].0 % (BASE_MODULUS as int)
    } else {
        sorted[i / 3].1 % (BASE_MODULUS as int)
    }
}

/// The keystream of a list of edges: three values for each edge in
/// ascending order, without the very last value.
pub open spec fn keystream_of(edges: Seq<(int, int)>) -> Seq<int> {
    let sorted = sorted_edges(edges);
    if edges.len() == 0 {
        Seq::empty()
    } else {
        Seq::new((3 * edges.len() - 1) as nat, |i: int| keystream_entry(sorted, i))
    }
}

/// The quadratic factor that an edge contributes to the key polynomial.
pub open spec fn edge_factor(e: (int, int)) -> Seq<int> {
    seq![1, odd_residue(e.0), odd_residue(e.1)]
}

/// The key polynomial of a list of edges: the product of their factors
/// modulo 512, taken in the order of the list.
pub open spec fn key_of(edges: Seq<(int, int)>) -> Seq<int>
    decreases edges.len(),
{
    if edges.len() == 0 {
        seq![1int]
    } else {
        poly_mul(key_of(edges.drop_last()), edge_factor(edges.last()), EXT_MODULUS as int)
    }
}

/// Putting `e` at position `k` is what `insert_sorted` does, when `k` is
/// the position behind the last edge that is not greater than `e`.
pub proof fn lemma_insert_position(s: Seq<(int, int)>, e: (int, int), k: int)
    requires
        0 <= k <= s.len(),
        forall|j: int| k <= j < s.len() ==> !edge_le(#[trigger] s[j], e),
        k == 0 || edge_le(s[k - 1], e),
    ensures
        insert_sorted(s, e) == s.insert(k, e),
    decreases s.len() - k,
{
    if s.len() == 0 {
        assert(seq![e] =~= s.insert(k, e));
    } else if k == s.len() {
        assert(s.push(e) =~= s.insert(k, e));
    } else {
        assert(!edge_le(s[s.len() - 1], e));
        lemma_insert_position(s.drop_last(), e, k);
        assert(s.drop_last().insert(k, e).push(s.last()) =~= s.insert(k, e));
    }
}

/// Inserting keeps a list ascending, makes it one longer, and adds exactly
/// the inserted edge.
pub proof fn lemma_insert_sorted(s: Seq<(int, int)>, e: (int, int))
    requires
        ascending(s),
    ensures
        ascending(insert_sorted(s, e)),
        insert_sorted(s, e).len() == s.len() + 1,
        insert_sorted(s, e).to_multiset() == s.to_multiset().insert(e),
    decreases s.len(),
{
    broadcast use vstd::seq_lib::group_to_multiset_ensures;

    let r = insert_sorted(s, e);
    if s.len() == 0 {
        assert(s =~= Seq::empty());
        assert(r =~= Seq::<(int, int)>::empty().push(e));
    } else if edge_le(s.last(), e) {
        assert forall|i: int, j: int| 0 <= i < j < r.len() implies edge_le(
            #[trigger] r[i],
            #[trigger] r[j],
        ) by {
            if j == s.len() {
                if i < s.len() - 1 {
                    assert(edge_le(s[i], s[s.len() - 1]));
                }
            } else {
                assert(edge_le(s[i], s[j]));
            }
        }
    } else {
        let front = s.drop_last();
        assert forall|i: int, j: int| 0 <= i < j < front.len() implies edge_le(
            #[trigger] front[i],
            #[trigger] front[j],
        ) by {
            assert(edge_le(s[i], s[j]));
        }
        lemma_insert_sorted(front, e);
        let mid = insert_sorted(front, e);
        // Every edge of `mid` is `e` or an edge of `front`, so none exceeds `s.last()`.
        assert forall|i: int| 0 <= i < mid.len() implies edge_le(#[trigger] mid[i], s.last()) by {
            assert(mid.to_multiset().count(mid[i]) > 0);
            if mid[i] != e {
                assert(front.to_multiset().count(mid[i]) > 0);
                let w = choose|w: int| 0 <= w < front.len() && front[w] == mid[i];
                assert(edge_le(s[w], s[s.len() - 1]));
            }
        }
        assert forall|i: int, j: int| 0 <= i < j < r.len() implies edge_le(
            #[trigger] r[i],
            #[trigger] r[j],
        ) by {
            if j < mid.len() {
                assert(edge_le(mid[i], mid[j]));
            }
        }
        assert(s =~= front.push(s.last()));
        assert(r.to_multiset() =~= s.to_multiset().insert(e));
    }
}

/// `sorted_edges` sorts: its result ascends and holds the same edges, each
/// as often as the list it was given.
pub proof fn lemma_sorted_edges(s: Seq<(int, int)>)
    ensures
        ascending(sorted_edges(s)),
        sorted_edges(s).len() == s.len(),
        sorted_edges(s).to_multiset() == s.to_multiset(),
    decreases s.len(),
{
    broadcast use vstd::seq_lib::group_to_multiset_ensures;

    if s.len() == 0 {
        assert(s =~= Seq::empty());
    } else {
        lemma_sorted_edges(s.drop_last());
        lemma_insert_sorted(sorted_edges(s.drop_last()), s.last());
        assert(s =~= s.drop_last().push(s.last()));
    }
}

/// Sorting has one result: an ascending list with the same edges as `s`,
/// each as often, is `sorted_edges(s)`.
pub proof fn lemma_sorted_edges_unique(s: Seq<(int, int)>, t: Seq<(int, int)>)
    requires
        ascending(t),
        t.to_multiset() == s.to_multiset(),
    ensures
        t == sorted_edges(s),
{
    let le = |a: (int, int), b: (int, int)| edge_le(a, b);
    let sorted = sorted_edges(s);
    lemma_sorted_edges(s);
    assert(vstd::relations::sorted_by(t, le)) by {
        assert forall|i: int, j: int| 0 <= i < j < t.len() implies #[trigger] le(t[i], t[j]) by {
            assert(edge_le(t[i], t[j]));
        }
    }
    assert(vstd::relations::sorted_by(sorted, le)) by {
        assert forall|i: int, j: int| 0 <= i < j < sorted.len() implies #[trigger] le(
            sorted[i],
            sorted[j],
        ) by {
            assert(edge_le(sorted[i], sorted[j]));
        }
    }
    assert(vstd::relations::total_ordering(le)) by {
        assert forall|x: (int, int), y: (int, int)| #[trigger] le(x, y) && #[trigger] le(
            y,
            x,
        ) implies x == y by {
            assert(x.0 == y.0 && x.1 == y.1);
        }
    }
    vstd::seq_lib::lemma_sorted_unique(t, sorted, le);
}

/// The keystream does not depend on the order in which the edges were
/// added: two lists with the same edges, each as often, give the same
/// keystream.
pub proof fn lemma_keystream_ignores_order(e1: Seq<(int, int)>, e2: Seq<(int, int)>)
    requires
        e1.to_multiset() == e2.to_multiset(),
    ensures
        keystream_of(e1) == keystream_of(e2),
{
    broadcast use vstd::seq_lib::group_to_multiset_ensures;

    lemma_sorted_edges(e1);
    lemma_sorted_edges(e2);
    lemma_sorted_edges_unique(e2, sorted_edges(e1));
    assert(e1.len() == e1.to_multiset().len());
    assert(e2.len() == e2.to_multiset().len());
}

/// The keystream of `e >= 1` edges has `3e - 1` values, all in `[0, 256)`.
pub proof fn lemma_keystream_of(edges: Seq<(int, int)>)
    requires
        edges.len() > 0,
    ensures
        keystream_of(edges).len() == 3 * edges.len() - 1,
        reduced(keystream_of(edges), BASE_MODULUS as int),
{
    let sorted = sorted_edges(edges);
    lemma_sorted_edges(edges);
    assert forall|i: int| 0 <= i < keystream_of(edges).len() implies 0 <= #[trigger] keystream_of(
        edges,
    )[i] < BASE_MODULUS by {
        lemma_mod_bound(sorted[i / 3].0, BASE_MODULUS as int);
        lemma_mod_bound(sorted[i / 3].1, BASE_MODULUS as int);
    }
}

/// Key and keystream depend on nothing but the list of edges: two graphs
/// with the same edges in the same order have the same key polynomial and
/// the same keystream, whatever their node counts.
pub proof fn lemma_derivation_deterministic(g1: Graph, g2: Graph)
    requires
        g1.data@ == g2.data@,
    ensures
        g1@.edges == g2@.edges,
        key_of(g1@.edges) == key_of(g2@.edges),
        keystream_of(g1@.edges) == keystream_of(g2@.edges),
{
}

/// A product of odd numbers, reduced modulo 512, is odd.
proof fn lemma_odd_product(x: int, y: int)
    requires
        x % 2 == 1,
        y % 2 == 1,
    ensures
        ((x * y) % 512) % 2 == 1,
{
    lemma_fundamental_div_mod(x, 2);
    lemma_fundamental_div_mod(y, 2);
    let a = x / 2;
    let b = y / 2;
    assert(x * y == 2 * (2 * a * b + a + b) + 1) by (nonlinear_arith)
        requires
            x == 2 * a + 1,
            y == 2 * b + 1,
    ;
    vstd::arithmetic::div_mod::lemma_fundamental_div_mod_converse(
        x * y,
        2,
        2 * a * b + a + b,
        1,
    );
    lemma_mod_mod(x * y, 2, 256);
}

/// The key polynomial of `e` edges has degree `2e`, coefficients in
/// `[0, 512)` and an odd leading coefficient, so that division by it
/// always succeeds.
pub proof fn lemma_key_of(edges: Seq<(int, int)>)
    ensures
        key_of(edges).len() == 2 * edges.len() + 1,
        reduced(key_of(edges), EXT_MODULUS as int),
        key_of(edges).last() % 2 == 1,
    decreases edges.len(),
{
    if edges.len() > 0 {
        let a = key_of(edges.drop_last());
        let f = edge_factor(edges.last());
        let key = key_of(edges);
        lemma_key_of(edges.drop_last());
        lemma_odd_residue(edges.last().0);
        lemma_odd_residue(edges.last().1);
        assert forall|t: int| 0 <= t < key.len() implies 0 <= #[trigger] key[t] < EXT_MODULUS by {
            lemma_mod_bound(conv(a, f, t), EXT_MODULUS as int);
        }
        let top = a.len() as int + 1;
        assert forall|i: int| 0 <= i < a.len() - 1 implies coef(a, i) == 0 || #[trigger] coef(
            f,
            top - i,
        ) == 0 by {}
        lemma_conv_sum_zero(a, f, top, 0, a.len() - 1);
        assert(conv(a, f, top) == conv_sum(a, f, top, 0, a.len() - 1) + coef(a, a.len() - 1) * coef(
            f,
            top - (a.len() - 1),
        ));
        assert(conv(a, f, top) == a.last() * f[2]);
        lemma_odd_product(a.last(), f[2]);
    }
}

impl Clone for Graph {
    fn clone(&self) -> (r: Self)
        ensures
            r@ == self@,
            r.data@ == self.data@,
            r.n == self.n,
    {
        let mut data: Vec<(usize, usize)> = Vec::new();
        let mut i: usize = 0;
        while i < self.data.len()
            invariant
                i <= self.data.len(),
                data@.len() == i,
                forall|j: int| 0 <= j < i ==> data@[j] == self.data@[j],
            decreases self.data.len() - i,
        {
            data.push(self.data[i]);
            i = i + 1;
        }
        assert(data@ =~= self.data@);
        Graph { n: self.n, data }
    }
}

impl Graph {
    /// Whether every edge joins two of the nodes `1..=n`.
    pub open spec fn wf(&self) -> bool {
        self@.wf()
    }

    /// The graph on the nodes `1..=n` without edges.
    pub fn new(n: usize) -> (g: Self)
        ensures
            g@.n == n,
            g@.edges == Seq::<(int, int)>::empty(),
            g.wf(),
    {
        let g = Graph { n, data: Vec::new() };
        assert(g@.edges =~= Seq::<(int, int)>::empty());
        g
    }

    /// Adds the edge from `u` to `v`, two of the nodes `1..=n`, behind the
    /// edges that are there.
    pub fn add_edge(&mut self, u: usize, v: usize)
        requires
            1 <= u <= old(self).n,
            1 <= v <= old(self).n,
        ensures
            final(self)@.n == old(self)@.n,
            final(self)@.edges == old(self)@.edges.push((u as int, v as int)),
            old(self).wf() ==> final(self).wf(),
    {
        self.data.push((u, v));
        proof {
            assert(self@.edges =~= old(self)@.edges.push((u as int, v as int)));
            if old(self).wf() {
                assert forall|i: int| 0 <= i < self@.edges.len() implies 1 <= (
                #[trigger] self@.edges[i]).0 <= self@.n && 1 <= self@.edges[i].1 <= self@.n by {
                    if i < old(self)@.edges.len() {
                        assert(self@.edges[i] == old(self)@.edges[i]);
                    }
                }
            }
        }
    }

    /// The edges in ascending order.
    fn sorted_data(&self) -> (out: Vec<(usize, usize)>)
        ensures
            pairs(out@) == sorted_edges(self@.edges),
    {
        let mut out: Vec<(usize, usize)> = Vec::new();
        let mut i: usize = 0;
        assert(pairs(out@) =~= sorted_edges(self@.edges.take(0)));
        while i < self.data.len()
            invariant
                i <= self.data.len(),
                pairs(out@) == sorted_edges(self@.edges.take(i as int)),
            decreases self.data.len() - i,
        {
            let e: (usize, usize) = self.data[i];
            let ghost em = (e.0 as int, e.1 as int);
            let ghost before = pairs(out@);
            let mut k: usize = out.len();
            while k > 0 && (out[k - 1].0 > e.0 || (out[k - 1].0 == e.0 && out[k - 1].1 > e.1))
                invariant
                    k <= out.len(),
                    before == pairs(out@),
                    em == (e.0 as int, e.1 as int),
                    forall|j: int| k <= j < out.len() ==> !edge_le(#[trigger] before[j], em),
                decreases k,
            {
                k = k - 1;
            }
            out.insert(k, e);
            proof {
                lemma_insert_position(before, em, k as int);
                assert(pairs(out@) =~= before.insert(k as int, em));
                let upto = self@.edges.take(i + 1);
                assert(upto.drop_last() =~= self@.edges.take(i as int));
                assert(upto.last() == em);
            }
            i = i + 1;
        }
        assert(self@.edges.take(i as int) =~= self@.edges);
        out
    }

    /// The keystream of the graph: for each edge `(u, v)` in ascending order
    /// the values `1`, `u` and `v` modulo 256, without the very last value.
    pub fn expand_sequence(&self) -> (seq: Vec<i64>)
        ensures
            ints(seq@) == keystream_of(self@.edges),
            reduced(ints(seq@), BASE_MODULUS as int),
            self@.edges.len() > 0 ==> seq@.len() == 3 * self@.edges.len() - 1,
            self@.edges.len() == 0 ==> seq@.len() == 0,
    {
        let sorted = self.sorted_data();
        let ghost model = sorted_edges(self@.edges);
        proof {
            lemma_sorted_edges(self@.edges);
        }
        let mut res: Vec<i64> = Vec::new();
        let mut i: usize = 0;
        while i < sorted.len()
            invariant
                i <= sorted.len(),
                sorted.len() == self@.edges.len(),
                model == pairs(sorted@),
                res@.len() == 3 * i,
                forall|j: int| 0 <= j < 3 * i ==> #[trigger] res@[j] == keystream_entry(model, j),
                forall|j: int| 0 <= j < 3 * i ==> 0 <= #[trigger] res@[j] < BASE_MODULUS,
            decreases sorted.len() - i,
        {
            let e: (usize, usize) = sorted[i];
            assert(model[i as int] == (e.0 as int, e.1 as int));
            res.push(1);
            res.push((e.0 % 256) as i64);
            res.push((e.1 % 256) as i64);
            i = i + 1;
        }
        res.pop();
        proof {
            assert(ints(res@) =~= keystream_of(self@.edges));
            assert forall|j: int| 0 <= j < res@.len() implies 0 <= #[trigger] ints(res@)[j]
                < BASE_MODULUS by {}
        }
        res
    }

    /// The key polynomial of the graph: the product over its edges
    /// `(u, v)`, in the order in which they were added, of the factors
    /// `1 + (2u + 1) x + (2v + 1) x^2` modulo 512.
    pub fn generate_key(&self) -> (key: Polynomial)
        ensures
            key.wf(),
            key@.modulus == EXT_MODULUS,
            key@.coeffs == key_of(self@.edges),
            key@.coeffs.len() == 2 * self@.edges.len() + 1,
            key@.coeffs.last() % 2 == 1,
    {
        let mut first: Vec<i64> = Vec::new();
        first.push(1);
        let mut res = Polynomial::new(first, EXT_MODULUS);
        let mut i: usize = 0;
        proof {
            assert(res@.coeffs =~= key_of(self@.edges.take(0)));
            lemma_key_of(self@.edges.take(0));
        }
        while i < self.data.len()
            invariant
                i <= self.data.len(),
                res.wf(),
                res@.modulus == EXT_MODULUS,
                res@.coeffs == key_of(self@.edges.take(i as int)),
            decreases self.data.len() - i,
        {
            let e: (usize, usize) = self.data[i];
            let mut factor: Vec<i64> = Vec::new();
            factor.push(1);
            factor.push(2 * ((e.0 % 256) as i64) + 1);
            factor.push(2 * ((e.1 % 256) as i64) + 1);
            let factor = Polynomial::new(factor, EXT_MODULUS);
            proof {
                let em = (e.0 as int, e.1 as int);
                lemma_odd_residue(em.0);
                lemma_odd_residue(em.1);
                assert(factor@.coeffs =~= edge_factor(em));
                let upto = self@.edges.take(i + 1);
                assert(upto.drop_last() =~= self@.edges.take(i as int));
                assert(upto.last() == em);
                lemma_key_of(upto);
            }
            res = res.product(&factor);
            i = i + 1;
        }
        proof {
            assert(self@.edges.take(i as int) =~= self@.edges);
            lemma_key_of(self@.edges);
        }
        res
    }
}

} // verus!
