//! Percolation on an n-by-n lattice of sites.
//!
//! Site `(row, column)` of the lattice maps to engine index
//! `column + n*row + 1`; index `0` is the virtual top sentinel and index
//! `n*n + 1` the virtual bottom sentinel.  The lattice percolates when a
//! chain of open, orthogonally adjacent sites joins the two sentinels.

use vstd::prelude::*;
use crate::union_find::WeightedQuickUnion;

verus! {

/// Engine index of site `(row, col)`: the fixed bijection that keeps index 0
/// and index `n*n + 1` free for the sentinels.
pub open spec fn site_index(n: int, row: int, col: int) -> int {
    col + n * row + 1
}

/// Engine index of the virtual bottom sentinel.
pub open spec fn bottom_index(n: int) -> int {
    n * n + 1
}

/// Whether `(row, col)` is a cell of the n-by-n lattice.
pub open spec fn valid_site(n: int, row: int, col: int) -> bool {
    0 <= row < n && 0 <= col < n
}

/// Whether the two cells touch orthogonally.
pub open spec fn sites_adjacent(n: int, r1: int, c1: int, r2: int, c2: int) -> bool {
    &&& valid_site(n, r1, c1)
    &&& valid_site(n, r2, c2)
    &&& ((r1 == r2 && (c2 == c1 + 1 || c1 == c2 + 1)) || (c1 == c2 && (r2 == r1 + 1 || r1 == r2
        + 1)))
}

/// Adjacency on engine indices: two lattice sites that touch orthogonally,
/// the virtual top with every top-row site, and the virtual bottom with
/// every bottom-row site.
pub open spec fn edge(n: int, a: int, b: int) -> bool {
    ||| exists|r1: int, c1: int, r2: int, c2: int|
        #[trigger] sites_adjacent(n, r1, c1, r2, c2) && a == site_index(n, r1, c1) && b
            == site_index(n, r2, c2)
    ||| exists|c: int| 0 <= c < n && ((a == 0 && b == #[trigger] site_index(n, 0, c)) || (a
        == site_index(n, 0, c) && b == 0))
    ||| exists|c: int| 0 <= c < n && ((a == bottom_index(n) && b == #[trigger] site_index(
        n,
        n - 1,
        c,
    )) || (a == site_index(n, n - 1, c) && b == bottom_index(n)))
}

/// A chain of open sites: every entry is an open engine index and
/// consecutive entries are adjacent.
pub open spec fn is_open_path(n: int, open_sites: Seq<bool>, s: Seq<int>, a: int, b: int) -> bool {
    &&& s.len() >= 1
    &&& s[0] == a
    &&& s[s.len() - 1] == b
    &&& forall|k: int| 0 <= k < s.len() ==> 0 <= #[trigger] s[k] < open_sites.len()
        && open_sites[s[k]]
    &&& forall|k: int| 0 <= k < s.len() - 1 ==> edge(n, #[trigger] s[k], s[k + 1])
}

/// Two engine indices joined by some chain of open sites.
pub open spec fn linked(n: int, open_sites: Seq<bool>, a: int, b: int) -> bool {
    exists|s: Seq<int>| #[trigger] is_open_path(n, open_sites, s, a, b)
}

/// Placement of a site's index and of its neighbours' indices.
pub proof fn lemma_site_arith(n: int, r: int, c: int)
    requires
        valid_site(n, r, c),
    ensures
        1 <= site_index(n, r, c) <= n * n,
        r >= 1 ==> site_index(n, r - 1, c) == site_index(n, r, c) - n,
        r + 1 < n ==> site_index(n, r + 1, c) == site_index(n, r, c) + n,
        c >= 1 ==> site_index(n, r, c - 1) == site_index(n, r, c) - 1,
        c + 1 < n ==> site_index(n, r, c + 1) == site_index(n, r, c) + 1,
{
    assert(1 <= c + n * r + 1 <= n * n && n * (r - 1) == n * r - n && n * (r + 1) == n * r + n)
        by (nonlinear_arith)
        requires
            0 <= r < n,
            0 <= c < n,
    ;
}

/// The site indexing is a bijection: distinct cells get distinct indices.
pub proof fn lemma_site_index_injective(n: int, r1: int, c1: int, r2: int, c2: int)
    requires
        valid_site(n, r1, c1),
        valid_site(n, r2, c2),
        site_index(n, r1, c1) == site_index(n, r2, c2),
    ensures
        r1 == r2,
        c1 == c2,
{
    assert(r1 == r2 && c1 == c2) by (nonlinear_arith)
        requires
            0 <= r1 < n,
            0 <= c1 < n,
            0 <= r2 < n,
            0 <= c2 < n,
            c1 + n * r1 == c2 + n * r2,
    ;
}

/// Every edge stays inside the engine's index space, touches at least one
/// lattice site, and holds in both directions.
pub proof fn lemma_edge_properties(n: int, a: int, b: int)
    requires
        n >= 1,
        edge(n, a, b),
    ensures
        0 <= a < n * n + 2,
        0 <= b < n * n + 2,
        1 <= a <= n * n || 1 <= b <= n * n,
        edge(n, b, a),
{
    if exists|r1: int, c1: int, r2: int, c2: int|
        #[trigger] sites_adjacent(n, r1, c1, r2, c2) && a == site_index(n, r1, c1) && b
            == site_index(n, r2, c2) {
        let (r1, c1, r2, c2) = choose|r1: int, c1: int, r2: int, c2: int|
            #[trigger] sites_adjacent(n, r1, c1, r2, c2) && a == site_index(n, r1, c1) && b
                == site_index(n, r2, c2);
        lemma_site_arith(n, r1, c1);
        lemma_site_arith(n, r2, c2);
        assert(sites_adjacent(n, r2, c2, r1, c1));
    } else if exists|c: int| 0 <= c < n && ((a == 0 && b == #[trigger] site_index(n, 0, c)) || (a
        == site_index(n, 0, c) && b == 0)) {
        let c = choose|c: int| 0 <= c < n && ((a == 0 && b == #[trigger] site_index(n, 0, c)) || (a
            == site_index(n, 0, c) && b == 0));
        lemma_site_arith(n, 0, c);
    } else {
        let c = choose|c: int| 0 <= c < n && ((a == bottom_index(n) && b == #[trigger] site_index(
            n,
            n - 1,
            c,
        )) || (a == site_index(n, n - 1, c) && b == bottom_index(n)));
        lemma_site_arith(n, n - 1, c);
        assert(n * n >= 1) by (nonlinear_arith)
            requires
                n >= 1,
        ;
    }
}

/// An edge between two open indices links them.
pub proof fn lemma_linked_edge(n: int, open_sites: Seq<bool>, a: int, b: int)
    requires
        edge(n, a, b),
        0 <= a < open_sites.len(),
        0 <= b < open_sites.len(),
        open_sites[a],
        open_sites[b],
    ensures
        linked(n, open_sites, a, b),
{
    let s = seq![a, b];
    assert(is_open_path(n, open_sites, s, a, b));
}

/// Linking is symmetric: reverse the chain.
pub proof fn lemma_linked_symmetric(n: int, open_sites: Seq<bool>, a: int, b: int)
    requires
        n >= 1,
        linked(n, open_sites, a, b),
    ensures
        linked(n, open_sites, b, a),
{
    let s = choose|s: Seq<int>| #[trigger] is_open_path(n, open_sites, s, a, b);
    let rev = Seq::new(s.len(), |i: int| s[s.len() - 1 - i]);
    assert forall|k: int| 0 <= k < rev.len() - 1 implies edge(n, #[trigger] rev[k], rev[k + 1]) by {
        let j = s.len() - 2 - k;
        assert(edge(n, s[j], s[j + 1]));
        lemma_edge_properties(n, s[j], s[j + 1]);
    }
    assert(is_open_path(n, open_sites, rev, b, a));
}

/// Linking is transitive: concatenate the chains.
pub proof fn lemma_linked_transitive(n: int, open_sites: Seq<bool>, a: int, b: int, c: int)
    requires
        linked(n, open_sites, a, b),
        linked(n, open_sites, b, c),
    ensures
        linked(n, open_sites, a, c),
{
    let s1 = choose|s: Seq<int>| #[trigger] is_open_path(n, open_sites, s, a, b);
    let s2 = choose|s: Seq<int>| #[trigger] is_open_path(n, open_sites, s, b, c);
    let s = s1 + s2.subrange(1, s2.len() as int);
    assert forall|k: int| 0 <= k < s.len() - 1 implies edge(n, #[trigger] s[k], s[k + 1]) by {
        if k < s1.len() - 1 {
            assert(edge(n, s1[k], s1[k + 1]));
        } else if k == s1.len() - 1 {
            assert(s[k] == s1[s1.len() - 1]);
            assert(s[k + 1] == s2[1]);
            assert(edge(n, s2[0], s2[1]));
        } else {
            let j = k - s1.len();
            assert(s[k] == s2[j + 1] && s[k + 1] == s2[j + 2]);
            assert(edge(n, s2[j + 1], s2[j + 2]));
        }
    }
    assert(s[s.len() - 1] == c);
    assert(is_open_path(n, open_sites, s, a, c));
}

/// A chain that only ever grows stays a chain: opening more sites keeps
/// every link.
pub proof fn lemma_linked_monotone(
    n: int,
    before: Seq<bool>,
    after: Seq<bool>,
    a: int,
    b: int,
)
    requires
        linked(n, before, a, b),
        after.len() == before.len(),
        forall|i: int| 0 <= i < before.len() && before[i] ==> #[trigger] after[i],
    ensures
        linked(n, after, a, b),
{
    let s = choose|s: Seq<int>| #[trigger] is_open_path(n, before, s, a, b);
    assert(is_open_path(n, after, s, a, b));
}

/// When every open edge already joins connected elements, a whole chain
/// joins connected elements.
pub proof fn lemma_path_connected(
    qu: WeightedQuickUnion,
    n: int,
    open_sites: Seq<bool>,
    s: Seq<int>,
    a: int,
    b: int,
)
    requires
        qu.n() == open_sites.len(),
        is_open_path(n, open_sites, s, a, b),
        forall|u: int, v: int|
            0 <= u < qu.n() && 0 <= v < qu.n() && #[trigger] edge(n, u, v) && open_sites[u]
                && open_sites[v] ==> qu.connected(u, v),
    ensures
        qu.connected(a, b),
    decreases s.len(),
{
    if s.len() == 1 {
        assert(a == b);
    } else {
        let tail = s.subrange(1, s.len() as int);
        assert(edge(n, s[0], s[1]));
        assert(qu.connected(s[0], s[1]));
        assert(is_open_path(n, open_sites, tail, s[1], b));
        lemma_path_connected(qu, n, open_sites, tail, s[1], b);
    }
}

/// Every pair the engine connects is explained by a chain of open sites.
spec fn engine_within_links(n: int, open_sites: Seq<bool>, qu: WeightedQuickUnion) -> bool {
    forall|a: int, b: int|
        0 <= a < qu.n() && 0 <= b < qu.n() && #[trigger] qu.connected(a, b) ==> a == b || linked(
            n,
            open_sites,
            a,
            b,
        )
}

/// The second engine connects everything the first one does.
spec fn engine_extends(pre: WeightedQuickUnion, post: WeightedQuickUnion) -> bool {
    forall|a: int, b: int|
        0 <= a < pre.n() && 0 <= b < pre.n() && #[trigger] pre.connected(a, b) ==> post.connected(
            a,
            b,
        )
}

/// An edge leaving a known site goes to one of its four neighbours or, from
/// a border row, to the matching sentinel.
proof fn lemma_edge_from_site(n: int, row: int, col: int, other: int)
    requires
        n >= 1,
        valid_site(n, row, col),
        edge(n, site_index(n, row, col), other),
    ensures
        (row == 0 && other == 0) || (row == n - 1 && other == bottom_index(n)) || (row >= 1 && other
            == site_index(n, row, col) - n) || (row + 1 < n && other == site_index(n, row, col)
            + n) || (col >= 1 && other == site_index(n, row, col) - 1) || (col + 1 < n && other
            == site_index(n, row, col) + 1),
{
    let nd = site_index(n, row, col);
    lemma_site_arith(n, row, col);
    if exists|r1: int, c1: int, r2: int, c2: int|
        #[trigger] sites_adjacent(n, r1, c1, r2, c2) && nd == site_index(n, r1, c1) && other
            == site_index(n, r2, c2) {
        let (r1, c1, r2, c2) = choose|r1: int, c1: int, r2: int, c2: int|
            #[trigger] sites_adjacent(n, r1, c1, r2, c2) && nd == site_index(n, r1, c1) && other
                == site_index(n, r2, c2);
        lemma_site_index_injective(n, r1, c1, row, col);
        lemma_site_arith(n, r2, c2);
    } else if exists|c: int| 0 <= c < n && ((nd == 0 && other == #[trigger] site_index(n, 0, c)) || (
    nd == site_index(n, 0, c) && other == 0)) {
        let c = choose|c: int| 0 <= c < n && ((nd == 0 && other == #[trigger] site_index(n, 0, c))
            || (nd == site_index(n, 0, c) && other == 0));
        lemma_site_arith(n, 0, c);
        lemma_site_index_injective(n, 0, c, row, col);
    } else {
        let c = choose|c: int| 0 <= c < n && ((nd == bottom_index(n) && other
            == #[trigger] site_index(n, n - 1, c)) || (nd == site_index(n, n - 1, c) && other
            == bottom_index(n)));
        lemma_site_arith(n, n - 1, c);
        lemma_site_index_injective(n, n - 1, c, row, col);
    }
}

/// After a union of two indices that a chain of open sites already joins,
/// every connected pair is still explained by such a chain.
proof fn lemma_join_into_linked(
    n: int,
    open_sites: Seq<bool>,
    pre: WeightedQuickUnion,
    post: WeightedQuickUnion,
    x: int,
    y: int,
)
    requires
        n >= 1,
        pre.n() == open_sites.len(),
        0 <= x < pre.n(),
        0 <= y < pre.n(),
        WeightedQuickUnion::merged(pre, post, x, y),
        linked(n, open_sites, x, y),
        forall|a: int, b: int|
            0 <= a < pre.n() && 0 <= b < pre.n() && #[trigger] pre.connected(a, b) ==> a == b
                || linked(n, open_sites, a, b),
    ensures
        forall|a: int, b: int|
            0 <= a < post.n() && 0 <= b < post.n() && #[trigger] post.connected(a, b) ==> a == b
                || linked(n, open_sites, a, b),
{
    assert forall|a: int, b: int|
        0 <= a < post.n() && 0 <= b < post.n() && #[trigger] post.connected(a, b) && a != b
    implies linked(n, open_sites, a, b) by {
        if pre.connected(a, b) {
        } else if pre.connected(a, x) && pre.connected(y, b) {
            if a != x {
                lemma_linked_transitive(n, open_sites, a, x, y);
            }
            if y != b {
                lemma_linked_transitive(n, open_sites, a, y, b);
            }
        } else {
            lemma_linked_symmetric(n, open_sites, x, y);
            if a != y {
                lemma_linked_transitive(n, open_sites, a, y, x);
            }
            if x != b {
                lemma_linked_transitive(n, open_sites, a, x, b);
            }
        }
    }
}

/// An n-by-n lattice of sites, each blocked or open, wired between a
/// virtual top and a virtual bottom node of one shared connectivity engine.
pub struct Grid {
    n: usize,
    qu: WeightedQuickUnion,
    unblocked: Vec<bool>,
}

impl Grid {
    /// The grid dimension.
    pub closed spec fn side(self) -> int {
        self.n as int
    }

    /// Which engine indices are open; sentinels stay open, sites start
    /// blocked.
    pub closed spec fn open_view(self) -> Seq<bool> {
        self.unblocked@
    }

    /// Engine index space: the sites plus the two sentinels.
    pub open spec fn universe(self) -> int {
        self.side() * self.side() + 2
    }

    /// Whether site `(row, col)` has been opened.
    pub open spec fn site_open(self, row: int, col: int) -> bool {
        self.open_view()[site_index(self.side(), row, col)]
    }

    /// The lattice percolates: a chain of open sites joins the virtual top
    /// to the virtual bottom.  This depends only on the side length and on
    /// which sites are open — not on the order in which they were opened.
    pub open spec fn percolates_spec(self) -> bool {
        linked(self.side(), self.open_view(), 0, bottom_index(self.side()))
    }

    /// The engine agrees with the lattice: two indices are connected exactly
    /// when some chain of open sites joins them.  Upholding this is why a
    /// union is only ever issued between two open indices.
    pub closed spec fn wf(self) -> bool {
        &&& self.side() >= 1
        &&& self.qu.wf()
        &&& self.qu.n() == self.universe()
        &&& self.open_view().len() == self.universe()
        &&& self.open_view()[0]
        &&& self.open_view()[bottom_index(self.side())]
        &&& forall|a: int, b: int|
            0 <= a < self.universe() && 0 <= b < self.universe() ==> (#[trigger] self.qu.connected(
                a,
                b,
            ) <==> (a == b || linked(self.side(), self.open_view(), a, b)))
    }

    /// Allocates an n-by-n grid with every site blocked and only the two
    /// sentinels open; nothing is connected to anything else yet, so the
    /// fresh grid does not percolate.
    pub fn new(n: usize) -> (g: Grid)
        requires
            1 <= n,
            n * n + 2 <= usize::MAX,
        ensures
            g.wf(),
            g.side() == n,
            g.open_view() == Seq::new((n * n + 2) as nat, |i: int| i == 0 || i == n * n + 1),
            !g.percolates_spec(),
    {
        let universe = n * n + 2;
        let mut unbl: Vec<bool> = Vec::new();
        let mut i: usize = 0;
        while i < universe
            invariant
                i <= universe,
                unbl@.len() == i,
                forall|j: int| 0 <= j < i ==> !(#[trigger] unbl@[j]),
            decreases universe - i,
        {
            unbl.push(false);
            i = i + 1;
        }
        unbl[0] = true;
        unbl[universe - 1] = true;

        let g = Grid { n, qu: WeightedQuickUnion::new(universe), unblocked: unbl };
        proof {
            let m = g.universe();
            let op = g.open_view();
            assert(op =~= Seq::new((n * n + 2) as nat, |i: int| i == 0 || i == n * n + 1));
            assert forall|a: int, b: int| 0 <= a < m && 0 <= b < m implies (
            #[trigger] g.qu.connected(a, b) <==> (a == b || linked(g.side(), op, a, b))) by {
                if a != b && linked(g.side(), op, a, b) {
                    let s = choose|s: Seq<int>| #[trigger] is_open_path(g.side(), op, s, a, b);
                    assert(s.len() >= 2);
                    assert(edge(g.side(), s[0], s[1]));
                    lemma_edge_properties(g.side(), s[0], s[1]);
                    assert(op[s[0]] && op[s[1]]);
                    assert(false);
                }
            }
            assert(g.wf());
            assert(!g.qu.connected(0, bottom_index(g.side())));
        }
        g
    }

    /// Maps lattice coordinates to the engine index of that site.
    fn box_to_array_position(&self, row: usize, column: usize) -> (r: usize)
        requires
            self.wf(),
            row < self.side(),
            column < self.side(),
        ensures
            r as int == site_index(self.side(), row as int, column as int),
            1 <= r <= self.side() * self.side(),
    {
        let m = self.unblocked.len();
        proof {
            assert(m as int == self.side() * self.side() + 2);
            lemma_site_arith(self.side(), row as int, column as int);
        }
        column + (self.n * row) + 1
    }

    /// Unions the two indices only when both are currently open, so the
    /// engine never links anything through a blocked site.
    fn connect(&mut self, node: usize, partner: usize)
        requires
            old(self).qu.wf(),
            old(self).qu.n() == old(self).unblocked@.len(),
            node < old(self).qu.n(),
            partner < old(self).qu.n(),
        ensures
            final(self).n == old(self).n,
            final(self).unblocked@ == old(self).unblocked@,
            final(self).qu.wf(),
            final(self).qu.n() == old(self).qu.n(),
            old(self).unblocked@[node as int] && old(self).unblocked@[partner as int]
                ==> WeightedQuickUnion::merged(
                old(self).qu,
                final(self).qu,
                node as int,
                partner as int,
            ) && final(self).qu.connected(node as int, partner as int),
            !(old(self).unblocked@[node as int] && old(self).unblocked@[partner as int])
                ==> final(self).qu == old(self).qu,
    {
        if self.unblocked[node] && self.unblocked[partner] {
            self.qu.connect(node, partner);
        }
    }

    /// Opens site `(row, column)` and links it with the virtual top when it
    /// lies in the top row, with the virtual bottom when it lies in the
    /// bottom row, and with each of its already-open lattice neighbours.
    /// Opening an open site again changes nothing.
    #[verifier::rlimit(50)]
    pub fn unblock_box(&mut self, row: usize, column: usize)
        requires
            old(self).wf(),
            row < old(self).side(),
            column < old(self).side(),
        ensures
            final(self).wf(),
            final(self).side() == old(self).side(),
            final(self).open_view() == old(self).open_view().update(
                site_index(old(self).side(), row as int, column as int),
                true,
            ),
    {
        let node = self.box_to_array_position(row, column);
        let side_length = self.n;
        let universe = self.unblocked.len();
        let ghost n_i = self.side();
        let ghost m = self.universe();
        let ghost nd = node as int;
        let ghost pre = *self;

        self.unblocked[node] = true;
        let ghost op = self.unblocked@;

        proof {
            lemma_site_arith(n_i, row as int, column as int);
            assert(universe as int == m);
            assert forall|a: int, b: int|
                0 <= a < m && 0 <= b < m && #[trigger] self.qu.connected(a, b) && a != b
            implies linked(n_i, op, a, b) by {
                assert(pre.qu.connected(a, b));
                lemma_linked_monotone(n_i, pre.unblocked@, op, a, b);
            }
            assert(engine_within_links(n_i, op, self.qu));
        }
        let ghost q0 = self.qu;

        if row == 0 {
            proof {
                assert(nd == site_index(n_i, 0, column as int));
                assert(edge(n_i, nd, 0));
            }
            self.connect(node, 0);
            proof {
                lemma_linked_edge(n_i, op, nd, 0);
                lemma_join_into_linked(n_i, op, q0, self.qu, nd, 0);
            }
        }
        let ghost q1 = self.qu;
        proof {
            assert(engine_within_links(n_i, op, self.qu));
            assert(engine_extends(q0, q1));
        }

        if row == side_length - 1 {
            proof {
                assert(nd == site_index(n_i, n_i - 1, column as int));
                assert(edge(n_i, nd, bottom_index(n_i)));
            }
            self.connect(node, universe - 1);
            proof {
                lemma_linked_edge(n_i, op, nd, bottom_index(n_i));
                lemma_join_into_linked(n_i, op, q1, self.qu, nd, bottom_index(n_i));
            }
        }
        let ghost q2 = self.qu;
        proof {
            assert(engine_within_links(n_i, op, self.qu));
            assert(engine_extends(q1, q2));
        }

        if row != 0 {
            proof {
                assert(sites_adjacent(n_i, row as int, column as int, row as int - 1, column as int));
                assert(nd - n_i == site_index(n_i, row as int - 1, column as int));
                assert(edge(n_i, nd, nd - n_i));
            }
            let up = node - side_length;
            self.connect(node, up);
            proof {
                if op[nd - n_i] {
                    lemma_linked_edge(n_i, op, nd, nd - n_i);
                    lemma_join_into_linked(n_i, op, q2, self.qu, nd, nd - n_i);
                }
            }
        }
        let ghost q3 = self.qu;
        proof {
            assert(engine_within_links(n_i, op, self.qu));
            assert(engine_extends(q2, q3));
        }

        if row != self.n - 1 {
            proof {
                lemma_site_arith(n_i, row as int + 1, column as int);
                assert(sites_adjacent(n_i, row as int, column as int, row as int + 1, column as int));
                assert(nd + n_i == site_index(n_i, row as int + 1, column as int));
                assert(edge(n_i, nd, nd + n_i));
            }
            let down = node + side_length;
            self.connect(node, down);
            proof {
                if op[nd + n_i] {
                    lemma_linked_edge(n_i, op, nd, nd + n_i);
                    lemma_join_into_linked(n_i, op, q3, self.qu, nd, nd + n_i);
                }
            }
        }
        let ghost q4 = self.qu;
        proof {
            assert(engine_within_links(n_i, op, self.qu));
            assert(engine_extends(q3, q4));
        }

        if column != 0 {
            proof {
                assert(sites_adjacent(n_i, row as int, column as int, row as int, column as int - 1));
                assert(nd - 1 == site_index(n_i, row as int, column as int - 1));
                assert(edge(n_i, nd, nd - 1));
            }
            self.connect(node, node - 1);
            proof {
                if op[nd - 1] {
                    lemma_linked_edge(n_i, op, nd, nd - 1);
                    lemma_join_into_linked(n_i, op, q4, self.qu, nd, nd - 1);
                }
            }
        }
        let ghost q5 = self.qu;
        proof {
            assert(engine_within_links(n_i, op, self.qu));
            assert(engine_extends(q4, q5));
        }

        if column != self.n - 1 {
            proof {
                assert(sites_adjacent(n_i, row as int, column as int, row as int, column as int + 1));
                assert(nd + 1 == site_index(n_i, row as int, column as int + 1));
                assert(edge(n_i, nd, nd + 1));
            }
            self.connect(node, node + 1);
            proof {
                if op[nd + 1] {
                    lemma_linked_edge(n_i, op, nd, nd + 1);
                    lemma_join_into_linked(n_i, op, q5, self.qu, nd, nd + 1);
                }
            }
        }
        let ghost q6 = self.qu;
        proof {
            assert(engine_within_links(n_i, op, self.qu));
            assert(engine_extends(q5, q6));

            // Every edge of the freshly opened lattice joins indices that
            // the engine now connects.
            assert forall|u: int, v: int|
                0 <= u < m && 0 <= v < m && #[trigger] edge(n_i, u, v) && op[u] && op[v]
            implies self.qu.connected(u, v) by {
                if u == v {
                } else if u != nd && v != nd {
                    lemma_linked_edge(n_i, pre.open_view(), u, v);
                    assert(pre.qu.connected(u, v));
                    assert(q0.connected(u, v));
                } else {
                    let w = if u == nd { v } else { u };
                    if v == nd {
                        lemma_edge_properties(n_i, u, v);
                    }
                    assert(edge(n_i, nd, w));
                    lemma_edge_from_site(n_i, row as int, column as int, w);
                    if row as int == 0 && w == 0 {
                        assert(q1.connected(nd, 0));
                    } else if row as int == n_i - 1 && w == bottom_index(n_i) {
                        assert(q2.connected(nd, w));
                    } else if row as int >= 1 && w == nd - n_i {
                        assert(q3.connected(nd, w));
                    } else if row as int + 1 < n_i && w == nd + n_i {
                        assert(q4.connected(nd, w));
                    } else if column as int >= 1 && w == nd - 1 {
                        assert(q5.connected(nd, w));
                    } else {
                        assert(q6.connected(nd, w));
                    }
                    assert(self.qu.connected(nd, w));
                    if v == nd {
                        assert(self.qu.connected(u, v));
                    }
                }
            }

            // The engine relation coincides with open-site reachability.
            assert forall|a: int, b: int| 0 <= a < m && 0 <= b < m implies (
            #[trigger] self.qu.connected(a, b) <==> (a == b || linked(n_i, op, a, b))) by {
                if a == b {
                    assert(self.qu.connected(a, b));
                } else if linked(n_i, op, a, b) {
                    let s = choose|s: Seq<int>| #[trigger] is_open_path(n_i, op, s, a, b);
                    lemma_path_connected(self.qu, n_i, op, s, a, b);
                }
            }
            assert(self.wf());
            assert(self.open_view() =~= pre.open_view().update(nd, true));
        }
    }

    /// Whether site `(row, column)` has been opened.
    pub fn is_open(&self, row: usize, column: usize) -> (r: bool)
        requires
            self.wf(),
            row < self.side(),
            column < self.side(),
        ensures
            r == self.site_open(row as int, column as int),
    {
        let node = self.box_to_array_position(row, column);
        self.unblocked[node]
    }

    /// Whether the lattice percolates.  The answer is a pure function of
    /// the open sites; the engine may compress paths underneath, which is
    /// not observable through any contract.
    pub fn percolates(&mut self) -> (r: bool)
        requires
            old(self).wf(),
        ensures
            final(self).wf(),
            final(self).side() == old(self).side(),
            final(self).open_view() == old(self).open_view(),
            r == old(self).percolates_spec(),
    {
        let universe = self.unblocked.len();
        proof {
            assert(self.side() * self.side() >= 1) by (nonlinear_arith)
                requires
                    self.side() >= 1,
            ;
        }
        let r = self.qu.is_connected(0, universe - 1);
        proof {
            assert forall|a: int, b: int| 0 <= a < self.universe() && 0 <= b < self.universe()
            implies (#[trigger] self.qu.connected(a, b) <==> (a == b || linked(
                self.side(),
                self.open_view(),
                a,
                b,
            ))) by {
                assert(old(self).qu.connected(a, b) <==> (a == b || linked(
                    old(self).side(),
                    old(self).open_view(),
                    a,
                    b,
                )));
            }
        }
        r
    }
}

/// For a fixed set of open sites the percolation verdict is fixed: however
/// differently two grids of one side length were driven to the same open
/// sites, they percolate alike.
pub proof fn lemma_percolates_order_independent(g1: Grid, g2: Grid)
    requires
        g1.side() == g2.side(),
        g1.open_view() == g2.open_view(),
    ensures
        g1.percolates_spec() == g2.percolates_spec(),
{
}

} // verus!
