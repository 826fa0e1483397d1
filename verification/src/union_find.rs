//! Union-find engines for the dynamic connectivity problem.
//!
//! `WeightedQuickUnion` is the production structure: weighted union with path
//! compression by halving.  `QuickFind` and `QuickUnion` are the classic
//! baseline variants, kept as reference implementations.

use vstd::prelude::*;
use vstd::arithmetic::power2::lemma2_to64;
use vstd::arithmetic::power2::lemma_pow2_unfold;
use vstd::arithmetic::power2::pow2;
use vstd::set_lib::lemma_int_range;
use vstd::set_lib::lemma_len_subset;
use vstd::set_lib::lemma_set_disjoint_lens;
use vstd::set_lib::set_int_range;

verus! {

/// Weighted quick-union with path compression by halving.
///
/// Each element of `0..n` carries a parent pointer in `parent_of`; an element
/// that is its own parent is the root of its tree, and two elements belong to
/// the same component exactly when they reach the same root.  `sizes` is
/// meaningful at root positions only, where it holds the number of elements
/// of that root's tree; entries at non-root positions are stale and are never
/// read.
pub struct WeightedQuickUnion {
    pub parent_of: Vec<usize>,
    sizes: Vec<usize>,
    /// The representative of each element: the abstract state that the
    /// contracts speak of.  It always equals the root that the parent chain
    /// of the element reaches.
    rep: Ghost<Seq<int>>,
    /// A measure that decreases strictly along every parent chain, so each
    /// chain reaches its root in at most `dist[i]` steps.  Roots sit at zero,
    /// and weighted union keeps `pow2(dist[i])` below the component size.
    dist: Ghost<Seq<nat>>,
}

impl WeightedQuickUnion {
    /// The representative of each element; two elements are connected exactly
    /// when their representatives coincide.
    pub closed spec fn repr(self) -> Seq<int> {
        self.rep@
    }

    /// Number of elements of the universe.
    pub open spec fn n(self) -> int {
        self.repr().len() as int
    }

    /// The parent pointer of each element.
    pub closed spec fn parents(self) -> Seq<usize> {
        self.parent_of@
    }

    /// Whether `p` and `q` are in the same component.
    pub open spec fn connected(self, p: int, q: int) -> bool {
        self.repr()[p] == self.repr()[q]
    }

    /// The set of elements whose representative is `r`.
    pub open spec fn component(self, r: int) -> Set<int> {
        Set::new(|j: int| 0 <= j < self.n() && self.repr()[j] == r)
    }

    /// Internal consistency: the parent forest, the representatives, the
    /// chain measure and the root sizes all agree.
    pub closed spec fn wf(self) -> bool {
        &&& self.parent_of@.len() == self.n()
        &&& self.sizes@.len() == self.n()
        &&& self.dist@.len() == self.n()
        &&& forall|i: int| 0 <= i < self.n() ==> 0 <= #[trigger] self.parent_of@[i] < self.n()
        &&& forall|i: int| 0 <= i < self.n() ==> 0 <= #[trigger] self.rep@[i] < self.n()
        &&& forall|i: int| 0 <= i < self.n() ==> self.rep@[#[trigger] self.rep@[i]] == self.rep@[i]
        &&& forall|i: int| 0 <= i < self.n() ==>
            self.rep@[#[trigger] self.parent_of@[i] as int] == self.rep@[i]
        &&& forall|i: int| 0 <= i < self.n() ==>
            ((#[trigger] self.parent_of@[i] as int == i) <==> self.rep@[i] == i)
        &&& forall|i: int| 0 <= i < self.n() && self.parent_of@[i] as int != i ==>
            self.dist@[#[trigger] self.parent_of@[i] as int] < self.dist@[i]
        &&& forall|i: int| 0 <= i < self.n() && self.rep@[i] == i ==> #[trigger] self.dist@[i] == 0
        &&& forall|i: int| 0 <= i < self.n() ==>
            pow2(#[trigger] self.dist@[i]) <= self.sizes@[self.rep@[i]]
        &&& forall|r: int| 0 <= r < self.n() && #[trigger] self.rep@[r] == r ==>
            self.sizes@[r] == self.component(r).len()
    }

    /// How one union step changes connectivity: afterwards two elements are
    /// connected exactly when they already were, or when one reaches `p` and
    /// the other reaches `q`.
    pub open spec fn merged(pre: Self, post: Self, p: int, q: int) -> bool {
        &&& post.n() == pre.n()
        &&& forall|a: int, b: int| 0 <= a < pre.n() && 0 <= b < pre.n() ==>
            (#[trigger] post.connected(a, b) <==> (pre.connected(a, b)
                || (pre.connected(a, p) && pre.connected(q, b))
                || (pre.connected(a, q) && pre.connected(p, b))))
    }

    /// Allocates an engine of `n` singleton components.
    pub fn new(n: usize) -> (r: WeightedQuickUnion)
        ensures
            r.wf(),
            r.n() == n,
            forall|i: int| 0 <= i < n ==> #[trigger] r.repr()[i] == i,
    {
        let mut parent_of: Vec<usize> = Vec::new();
        let mut sizes: Vec<usize> = Vec::new();
        let mut i: usize = 0;
        while i < n
            invariant
                i <= n,
                parent_of@.len() == i,
                sizes@.len() == i,
                forall|j: int| 0 <= j < i ==> #[trigger] parent_of@[j] as int == j,
                forall|j: int| 0 <= j < i ==> #[trigger] sizes@[j] == 1,
            decreases n - i,
        {
            parent_of.push(i);
            sizes.push(1);
            i = i + 1;
        }
        let r = WeightedQuickUnion {
            parent_of,
            sizes,
            rep: Ghost(Seq::new(n as nat, |j: int| j)),
            dist: Ghost(Seq::new(n as nat, |j: int| 0)),
        };
        proof {
            lemma2_to64();
            assert forall|rt: int| 0 <= rt < r.n() && #[trigger] r.repr()[rt] == rt
            implies r.sizes@[rt] == r.component(rt).len() by {
                assert(r.component(rt) =~= set_int_range(rt, rt + 1));
                lemma_int_range(rt, rt + 1);
            }
        }
        r
    }

    /// Returns the root of the tree containing `p`.  On the way up it points
    /// every visited element at its grandparent (path compression by
    /// halving), which changes the forest's shape but not the connectivity
    /// relation.
    fn find_top_of_tree(&mut self, p: usize) -> (r: usize)
        requires
            old(self).wf(),
            p < old(self).n(),
        ensures
            final(self).wf(),
            final(self).n() == old(self).n(),
            final(self).repr() == old(self).repr(),
            final(self).sizes@ == old(self).sizes@,
            final(self).dist@ == old(self).dist@,
            r as int == old(self).repr()[p as int],
    {
        let mut current_node = p;

        while self.parent_of[current_node] != current_node
            invariant
                self.wf(),
                self.n() == old(self).n(),
                self.repr() == old(self).repr(),
                self.sizes@ == old(self).sizes@,
                self.dist@ == old(self).dist@,
                current_node < self.n(),
                self.repr()[current_node as int] == old(self).repr()[p as int],
            decreases self.dist@[current_node as int],
        {
            let parent = self.parent_of[current_node];
            let grandparent = self.parent_of[parent];
            let ghost prev = *self;
            self.parent_of[current_node] = grandparent;
            proof {
                assert(prev.dist@[grandparent as int] < prev.dist@[current_node as int]);
                assert(self.wf());
            }
            current_node = grandparent;
        }
        current_node
    }

    /// Whether `p` and `q` are in the same component.  Compresses paths as a
    /// side effect, which never changes the connectivity relation.
    pub fn is_connected(&mut self, p: usize, q: usize) -> (r: bool)
        requires
            old(self).wf(),
            p < old(self).n(),
            q < old(self).n(),
        ensures
            final(self).wf(),
            final(self).n() == old(self).n(),
            final(self).repr() == old(self).repr(),
            r == old(self).connected(p as int, q as int),
    {
        let top_of_p = self.find_top_of_tree(p);
        let top_of_q = self.find_top_of_tree(q);
        top_of_p == top_of_q
    }

    /// Hangs the tree rooted at `child` below `root` and charges `child`'s
    /// size to `root`.  The weighting precondition `sizes[child] <=
    /// sizes[root]` is what keeps every chain measure within `log2(n)`.
    fn attach_root(&mut self, child: usize, root: usize)
        requires
            old(self).wf(),
            child < old(self).n(),
            root < old(self).n(),
            child != root,
            old(self).repr()[child as int] == child,
            old(self).repr()[root as int] == root,
            old(self).sizes@[child as int] <= old(self).sizes@[root as int],
        ensures
            final(self).wf(),
            final(self).n() == old(self).n(),
            forall|i: int| 0 <= i < old(self).n() ==> #[trigger] final(self).repr()[i]
                == (if old(self).repr()[i] == child { root as int } else { old(self).repr()[i] }),
    {
        let ghost pre = *self;
        let ghost un = pre.n();
        let universe = self.parent_of.len();
        proof {
            assert(un == universe);
            // The two components are disjoint subsets of 0..n, so the two
            // root sizes are component cardinalities that sum to at most n.
            let cc = pre.component(child as int);
            let cr = pre.component(root as int);
            lemma_int_range(0, un);
            lemma_len_subset(cc + cr, set_int_range(0, un));
            lemma_len_subset(cc, set_int_range(0, un));
            lemma_len_subset(cr, set_int_range(0, un));
            lemma_set_disjoint_lens(cc, cr);
            assert((cc + cr).len() == cc.len() + cr.len());
            assert(pre.sizes@[child as int] + pre.sizes@[root as int] <= un);
        }
        let new_size = self.sizes[root] + self.sizes[child];
        self.parent_of[child] = root;
        self.sizes[root] = new_size;
        self.rep = Ghost(
            Seq::new(un as nat, |i: int| if pre.rep@[i] == child { root as int } else { pre.rep@[i] }),
        );
        self.dist = Ghost(
            Seq::new(un as nat, |i: int| if pre.rep@[i] == child { (pre.dist@[i] + 1) as nat } else { pre.dist@[i] }),
        );
        proof {
            let post = *self;
            // The measure bound survives: a chain of the attached tree grew
            // by one step, and its doubled power-of-two bound still fits in
            // the merged component because `child`'s tree was the smaller.
            assert forall|i: int| 0 <= i < un
            implies pow2(#[trigger] post.dist@[i]) <= post.sizes@[post.rep@[i]] by {
                if pre.rep@[i] == child {
                    lemma_pow2_unfold((pre.dist@[i] + 1) as nat);
                }
            }
            // Root sizes still count their components exactly.
            assert forall|r: int| 0 <= r < un && #[trigger] post.rep@[r] == r
            implies post.sizes@[r] == post.component(r).len() by {
                let cc = pre.component(child as int);
                let cr = pre.component(root as int);
                if r == root as int {
                    assert(post.component(r) =~= cc + cr);
                    lemma_int_range(0, un);
                    lemma_len_subset(cc, set_int_range(0, un));
                    lemma_len_subset(cr, set_int_range(0, un));
                    lemma_set_disjoint_lens(cc, cr);
                } else {
                    assert(post.component(r) =~= pre.component(r));
                }
            }
            assert(post.wf());
        }
    }

    /// Merges the components containing `p` and `q`.  If they already share
    /// a component nothing changes; otherwise the root of the smaller tree is
    /// attached below the root of the larger one (on a tie, `p`'s root moves
    /// below `q`'s).
    pub fn connect(&mut self, p: usize, q: usize)
        requires
            old(self).wf(),
            p < old(self).n(),
            q < old(self).n(),
        ensures
            final(self).wf(),
            final(self).n() == old(self).n(),
            Self::merged(*old(self), *final(self), p as int, q as int),
            final(self).connected(p as int, q as int),
    {
        let top_parent_of_p = self.find_top_of_tree(p);
        let top_parent_of_q = self.find_top_of_tree(q);

        if top_parent_of_p == top_parent_of_q {
            return;
        }

        let ghost pre = *self;
        let p_bigger_than_q = self.sizes[top_parent_of_p] > self.sizes[top_parent_of_q];

        if p_bigger_than_q {
            self.attach_root(top_parent_of_q, top_parent_of_p);
        } else {
            self.attach_root(top_parent_of_p, top_parent_of_q);
        }
        proof {
            assert forall|a: int, b: int| 0 <= a < pre.n() && 0 <= b < pre.n()
            implies (#[trigger] self.connected(a, b) <==> (pre.connected(a, b)
                || (pre.connected(a, p as int) && pre.connected(q as int, b))
                || (pre.connected(a, q as int) && pre.connected(p as int, b)))) by {
                assert(0 <= pre.repr()[a] < pre.n());
                assert(0 <= pre.repr()[b] < pre.n());
            }
        }
    }
}

/// The set of group labels that occur in `s`.
pub open spec fn distinct_groups(s: Seq<u32>) -> Set<u32> {
    Set::new(|v: u32| exists|j: int| 0 <= j < s.len() && s[j] == v)
}

/// The labels that occur among the first `k` entries of `s`.
spec fn prefix_groups(s: Seq<u32>, k: int) -> Set<u32> {
    Set::new(|v: u32| exists|j: int| 0 <= j < k && s[j] == v)
}

/// The eager baseline engine: element `i` carries the label of its group,
/// and two elements are connected exactly when their labels coincide.
/// Every union rewrites the whole label array, which is what makes it slow.
pub struct QuickFind {
    groups: Vec<u32>,
}

impl QuickFind {
    /// The group label of each element.
    pub closed spec fn labels(self) -> Seq<u32> {
        self.groups@
    }

    /// Number of elements of the universe.
    pub open spec fn n(self) -> int {
        self.labels().len() as int
    }

    /// Whether `p` and `q` are in the same group.
    pub open spec fn connected(self, p: int, q: int) -> bool {
        self.labels()[p] == self.labels()[q]
    }

    /// How one union step changes connectivity, stated as for the other
    /// engines: the relation grows by exactly the pairs that `p`--`q` joins.
    pub open spec fn merged(pre: Self, post: Self, p: int, q: int) -> bool {
        &&& post.n() == pre.n()
        &&& forall|a: int, b: int| 0 <= a < pre.n() && 0 <= b < pre.n() ==>
            (#[trigger] post.connected(a, b) <==> (pre.connected(a, b)
                || (pre.connected(a, p) && pre.connected(q, b))
                || (pre.connected(a, q) && pre.connected(p, b))))
    }

    /// Allocates `n` elements, each alone in its own group.
    pub fn new(n: u32) -> (r: QuickFind)
        ensures
            r.n() == n,
            forall|i: int| 0 <= i < n ==> #[trigger] r.labels()[i] == i,
    {
        let mut groups: Vec<u32> = Vec::new();
        let mut i: u32 = 0;
        while i < n
            invariant
                i <= n,
                groups@.len() == i,
                forall|j: int| 0 <= j < i ==> #[trigger] groups@[j] == j,
            decreases n - i,
        {
            groups.push(i);
            i = i + 1;
        }
        QuickFind { groups }
    }

    /// Whether `p` and `q` are in the same group.
    pub fn is_connected(&self, p: usize, q: usize) -> (r: bool)
        requires
            p < self.n(),
            q < self.n(),
        ensures
            r == self.connected(p as int, q as int),
    {
        self.groups[p] == self.groups[q]
    }

    /// Merges the groups containing `p` and `q` by relabelling every element
    /// of `p`'s group with `q`'s label.
    pub fn connect(&mut self, p: usize, q: usize)
        requires
            p < old(self).n(),
            q < old(self).n(),
        ensures
            final(self).n() == old(self).n(),
            forall|i: int| 0 <= i < old(self).n() ==> #[trigger] final(self).labels()[i] == (if old(
                self,
            ).labels()[i] == old(self).labels()[p as int] {
                old(self).labels()[q as int]
            } else {
                old(self).labels()[i]
            }),
            Self::merged(*old(self), *final(self), p as int, q as int),
            final(self).connected(p as int, q as int),
    {
        let mut new_vec: Vec<u32> = Vec::new();

        let target_group = self.groups[p];
        let replacement_group = self.groups[q];

        let mut i: usize = 0;
        while i < self.groups.len()
            invariant
                i <= self.groups@.len(),
                new_vec@.len() == i,
                target_group == self.labels()[p as int],
                replacement_group == self.labels()[q as int],
                forall|j: int| 0 <= j < i ==> #[trigger] new_vec@[j] == (if self.labels()[j]
                    == target_group {
                    replacement_group
                } else {
                    self.labels()[j]
                }),
            decreases self.groups@.len() - i,
        {
            if self.groups[i] == target_group {
                new_vec.push(replacement_group);
            } else {
                new_vec.push(self.groups[i]);
            }
            i = i + 1;
        }
        self.groups = new_vec;
    }

    /// Number of distinct groups, counted by first occurrence of each label.
    pub fn number_of_groups(&self) -> (r: usize)
        ensures
            r == distinct_groups(self.labels()).len(),
    {
        let s = &self.groups;
        let mut count: usize = 0;
        let mut i: usize = 0;
        proof {
            assert(prefix_groups(s@, 0) =~= Set::<u32>::empty());
        }
        while i < s.len()
            invariant
                i <= s@.len(),
                count <= i,
                prefix_groups(s@, i as int).finite(),
                count == prefix_groups(s@, i as int).len(),
            decreases s@.len() - i,
        {
            let v = s[i];
            let mut seen_before = false;
            let mut j: usize = 0;
            while j < i
                invariant
                    j <= i,
                    i < s@.len(),
                    v == s@[i as int],
                    seen_before <==> exists|k: int| 0 <= k < j && s@[k] == v,
                decreases i - j,
            {
                if s[j] == v {
                    seen_before = true;
                }
                j = j + 1;
            }
            proof {
                vstd::set::axiom_set_insert_finite(prefix_groups(s@, i as int), v);
                vstd::set::axiom_set_insert_len(prefix_groups(s@, i as int), v);
                assert(prefix_groups(s@, i as int + 1) =~= prefix_groups(s@, i as int).insert(v));
                assert(seen_before <==> prefix_groups(s@, i as int).contains(v));
            }
            if !seen_before {
                count = count + 1;
            }
            i = i + 1;
        }
        proof {
            assert(prefix_groups(s@, s@.len() as int) =~= distinct_groups(s@));
        }
        count
    }
}

/// The lazy baseline engine: a forest of parent pointers, union by root
/// reassignment with no weighting and no compression, so trees may grow
/// tall.
pub struct QuickUnion {
    parents: Vec<usize>,
    /// The representative of each element, as for `WeightedQuickUnion`.
    rep: Ghost<Seq<int>>,
    /// A measure that decreases strictly along every parent chain.
    dist: Ghost<Seq<nat>>,
}

impl QuickUnion {
    /// The representative of each element.
    pub closed spec fn repr(self) -> Seq<int> {
        self.rep@
    }

    /// Number of elements of the universe.
    pub open spec fn n(self) -> int {
        self.repr().len() as int
    }

    /// Whether `p` and `q` are in the same component.
    pub open spec fn connected(self, p: int, q: int) -> bool {
        self.repr()[p] == self.repr()[q]
    }

    /// Internal consistency of the forest and the representatives.
    pub closed spec fn wf(self) -> bool {
        &&& self.parents@.len() == self.n()
        &&& self.dist@.len() == self.n()
        &&& forall|i: int| 0 <= i < self.n() ==> 0 <= #[trigger] self.parents@[i] < self.n()
        &&& forall|i: int| 0 <= i < self.n() ==> 0 <= #[trigger] self.rep@[i] < self.n()
        &&& forall|i: int| 0 <= i < self.n() ==> self.rep@[#[trigger] self.rep@[i]] == self.rep@[i]
        &&& forall|i: int| 0 <= i < self.n() ==>
            self.rep@[#[trigger] self.parents@[i] as int] == self.rep@[i]
        &&& forall|i: int| 0 <= i < self.n() ==>
            ((#[trigger] self.parents@[i] as int == i) <==> self.rep@[i] == i)
        &&& forall|i: int| 0 <= i < self.n() && self.parents@[i] as int != i ==>
            self.dist@[#[trigger] self.parents@[i] as int] < self.dist@[i]
    }

    /// How one union step changes connectivity.
    pub open spec fn merged(pre: Self, post: Self, p: int, q: int) -> bool {
        &&& post.n() == pre.n()
        &&& forall|a: int, b: int| 0 <= a < pre.n() && 0 <= b < pre.n() ==>
            (#[trigger] post.connected(a, b) <==> (pre.connected(a, b)
                || (pre.connected(a, p) && pre.connected(q, b))
                || (pre.connected(a, q) && pre.connected(p, b))))
    }

    /// Allocates `n` singleton components.
    pub fn new(n: usize) -> (r: QuickUnion)
        ensures
            r.wf(),
            r.n() == n,
            forall|i: int| 0 <= i < n ==> #[trigger] r.repr()[i] == i,
    {
        let mut parents: Vec<usize> = Vec::new();
        let mut i: usize = 0;
        while i < n
            invariant
                i <= n,
                parents@.len() == i,
                forall|j: int| 0 <= j < i ==> #[trigger] parents@[j] as int == j,
            decreases n - i,
        {
            parents.push(i);
            i = i + 1;
        }
        QuickUnion {
            parents,
            rep: Ghost(Seq::new(n as nat, |j: int| j)),
            dist: Ghost(Seq::new(n as nat, |j: int| 0)),
        }
    }

    /// Returns the root of the tree containing `p`; pure traversal, no
    /// compression.
    fn find_top_of_tree(&self, p: usize) -> (r: usize)
        requires
            self.wf(),
            p < self.n(),
        ensures
            r as int == self.repr()[p as int],
    {
        let mut current_node = p;
        while self.parents[current_node] != current_node
            invariant
                self.wf(),
                current_node < self.n(),
                self.repr()[current_node as int] == self.repr()[p as int],
            decreases self.dist@[current_node as int],
        {
            current_node = self.parents[current_node];
        }
        current_node
    }

    /// Whether `p` and `q` are in the same component.
    pub fn is_connected(&self, p: usize, q: usize) -> (r: bool)
        requires
            self.wf(),
            p < self.n(),
            q < self.n(),
        ensures
            r == self.connected(p as int, q as int),
    {
        self.find_top_of_tree(p) == self.find_top_of_tree(q)
    }

    /// Merges the components containing `p` and `q` by pointing `p`'s root
    /// at `q`'s root.
    pub fn connect(&mut self, p: usize, q: usize)
        requires
            old(self).wf(),
            p < old(self).n(),
            q < old(self).n(),
        ensures
            final(self).wf(),
            final(self).n() == old(self).n(),
            Self::merged(*old(self), *final(self), p as int, q as int),
            final(self).connected(p as int, q as int),
    {
        let ghost pre = *self;
        let top_parent_of_p = self.find_top_of_tree(p);
        let top_parent_of_q = self.find_top_of_tree(q);
        let ghost rp = top_parent_of_p as int;
        let ghost rq = top_parent_of_q as int;
        self.parents[top_parent_of_p] = top_parent_of_q;
        if top_parent_of_p == top_parent_of_q {
            proof {
                assert(self.parents@ =~= pre.parents@);
            }
            return ;
        }
        self.rep = Ghost(
            Seq::new(pre.n() as nat, |i: int| if pre.rep@[i] == rp { rq } else { pre.rep@[i] }),
        );
        self.dist = Ghost(
            Seq::new(
                pre.n() as nat,
                |i: int| if pre.rep@[i] == rp { (pre.dist@[i] + pre.dist@[rq] + 1) as nat } else { pre.dist@[i] },
            ),
        );
        proof {
            assert(self.wf());
            assert forall|a: int, b: int| 0 <= a < pre.n() && 0 <= b < pre.n()
            implies (#[trigger] self.connected(a, b) <==> (pre.connected(a, b)
                || (pre.connected(a, p as int) && pre.connected(q as int, b))
                || (pre.connected(a, q as int) && pre.connected(p as int, b)))) by {
                assert(0 <= pre.repr()[a] < pre.n());
                assert(0 <= pre.repr()[b] < pre.n());
            }
        }
    }
}

/// Connectivity is reflexive: in every engine state — in particular before
/// any union — each element is connected to itself.
pub proof fn lemma_connected_reflexive(u: WeightedQuickUnion, p: int)
    requires
        0 <= p < u.n(),
    ensures
        u.connected(p, p),
{
}

/// Connectivity is symmetric.
pub proof fn lemma_connected_symmetric(u: WeightedQuickUnion, p: int, q: int)
    requires
        0 <= p < u.n(),
        0 <= q < u.n(),
    ensures
        u.connected(p, q) == u.connected(q, p),
{
}

/// Unions connect transitively: after `connect(a, b)` and then
/// `connect(b, c)`, the elements `a` and `c` are connected.
pub proof fn lemma_connect_transitive(
    u0: WeightedQuickUnion,
    u1: WeightedQuickUnion,
    u2: WeightedQuickUnion,
    a: int,
    b: int,
    c: int,
)
    requires
        0 <= a < u0.n(),
        0 <= b < u0.n(),
        0 <= c < u0.n(),
        WeightedQuickUnion::merged(u0, u1, a, b),
        WeightedQuickUnion::merged(u1, u2, b, c),
    ensures
        u2.connected(a, c),
{
    assert(u1.connected(a, b));
    assert(u2.connected(a, b));
    assert(u2.connected(b, c));
}

/// Union is idempotent: a second `connect` of the same pair leaves the
/// connectivity relation exactly as the first left it.
pub proof fn lemma_connect_idempotent(
    u0: WeightedQuickUnion,
    u1: WeightedQuickUnion,
    u2: WeightedQuickUnion,
    p: int,
    q: int,
)
    requires
        0 <= p < u0.n(),
        0 <= q < u0.n(),
        WeightedQuickUnion::merged(u0, u1, p, q),
        WeightedQuickUnion::merged(u1, u2, p, q),
    ensures
        forall|a: int, b: int| 0 <= a < u1.n() && 0 <= b < u1.n() ==>
            (#[trigger] u2.connected(a, b) <==> u1.connected(a, b)),
{
    assert(u1.connected(p, q));
    assert forall|a: int, b: int| 0 <= a < u1.n() && 0 <= b < u1.n()
    implies (#[trigger] u2.connected(a, b) <==> u1.connected(a, b)) by {
        assert(u2.connected(a, b) <==> (u1.connected(a, b)
            || (u1.connected(a, p) && u1.connected(q, b))
            || (u1.connected(a, q) && u1.connected(p, b))));
    }
}

/// Connectivity is monotone across one union: the new relation contains
/// the old one.  `lemma_connected_monotone_sequence` extends this to any
/// sequence of unions.
pub proof fn lemma_connect_monotone(
    u0: WeightedQuickUnion,
    u1: WeightedQuickUnion,
    p: int,
    q: int,
    a: int,
    b: int,
)
    requires
        0 <= p < u0.n(),
        0 <= q < u0.n(),
        0 <= a < u0.n(),
        0 <= b < u0.n(),
        WeightedQuickUnion::merged(u0, u1, p, q),
        u0.connected(a, b),
    ensures
        u1.connected(a, b),
{
}

/// A run of the engine: `states[k]` steps to `states[k + 1]` by a union of
/// the two elements of `pairs[k]`.
pub open spec fn union_sequence(states: Seq<WeightedQuickUnion>, pairs: Seq<(int, int)>) -> bool {
    &&& states.len() == pairs.len() + 1
    &&& forall|k: int| 0 <= k < pairs.len() ==> 0 <= (#[trigger] pairs[k]).0 < states[0].n() && 0
        <= pairs[k].1 < states[0].n() && WeightedQuickUnion::merged(
        states[k],
        states[k + 1],
        pairs[k].0,
        pairs[k].1,
    )
}

proof fn lemma_sequence_same_n(states: Seq<WeightedQuickUnion>, pairs: Seq<(int, int)>, t: int)
    requires
        union_sequence(states, pairs),
        0 <= t < states.len(),
    ensures
        states[t].n() == states[0].n(),
    decreases t,
{
    if t > 0 {
        lemma_sequence_same_n(states, pairs, t - 1);
        let pr = pairs[t - 1];
        assert(WeightedQuickUnion::merged(states[t - 1], states[t], pr.0, pr.1));
    }
}

proof fn lemma_connected_monotone_from(
    states: Seq<WeightedQuickUnion>,
    pairs: Seq<(int, int)>,
    t: int,
    a: int,
    b: int,
)
    requires
        union_sequence(states, pairs),
        0 <= t < states.len(),
        0 <= a < states[0].n(),
        0 <= b < states[0].n(),
        states[t].connected(a, b),
    ensures
        states[states.len() - 1].connected(a, b),
    decreases states.len() - t,
{
    if t < states.len() - 1 {
        lemma_sequence_same_n(states, pairs, t);
        let pr = pairs[t];
        assert(WeightedQuickUnion::merged(states[t], states[t + 1], pr.0, pr.1));
        assert(states[t + 1].connected(a, b));
        lemma_connected_monotone_from(states, pairs, t + 1, a, b);
    }
}

/// Connectivity is monotone: once two elements are connected, no sequence
/// of further unions — whatever pairs it joins — disconnects them.
pub proof fn lemma_connected_monotone_sequence(
    states: Seq<WeightedQuickUnion>,
    pairs: Seq<(int, int)>,
    a: int,
    b: int,
)
    requires
        union_sequence(states, pairs),
        0 <= a < states[0].n(),
        0 <= b < states[0].n(),
        states[0].connected(a, b),
    ensures
        states[states.len() - 1].connected(a, b),
{
    lemma_connected_monotone_from(states, pairs, 0, a, b);
}

/// Transitivity through a whole run: when a union of `a` with `b` and a
/// union of `b` with `c` both occur somewhere in a sequence of unions, in
/// either order, `a` and `c` end up connected.
pub proof fn lemma_connect_transitive_in_sequence(
    states: Seq<WeightedQuickUnion>,
    pairs: Seq<(int, int)>,
    i: int,
    j: int,
    a: int,
    b: int,
    c: int,
)
    requires
        union_sequence(states, pairs),
        0 <= i < pairs.len(),
        0 <= j < pairs.len(),
        pairs[i] == (a, b),
        pairs[j] == (b, c),
    ensures
        states[states.len() - 1].connected(a, c),
{
    lemma_sequence_same_n(states, pairs, i);
    assert(states[i + 1].connected(a, b));
    lemma_connected_monotone_from(states, pairs, i + 1, a, b);
    lemma_sequence_same_n(states, pairs, j);
    assert(states[j + 1].connected(b, c));
    lemma_connected_monotone_from(states, pairs, j + 1, b, c);
}

/// The number of parent steps from `i` up to its root, or `None` when `fuel`
/// steps do not reach it.
pub open spec fn steps_to_root(parent: Seq<usize>, i: int, fuel: nat) -> Option<nat>
    decreases fuel,
{
    if !(0 <= i < parent.len()) {
        None
    } else if parent[i] as int == i {
        Some(0)
    } else if fuel == 0 {
        None
    } else {
        match steps_to_root(parent, parent[i] as int, (fuel - 1) as nat) {
            Some(k) => Some((k + 1) as nat),
            None => None,
        }
    }
}

proof fn lemma_steps_bounded_by_dist(u: WeightedQuickUnion, i: int, fuel: nat)
    requires
        u.wf(),
        0 <= i < u.n(),
        fuel >= u.dist@[i],
    ensures
        steps_to_root(u.parent_of@, i, fuel) is Some,
        steps_to_root(u.parent_of@, i, fuel)->Some_0 <= u.dist@[i],
    decreases u.dist@[i],
{
    if u.parent_of@[i] as int != i {
        lemma_steps_bounded_by_dist(u, u.parent_of@[i] as int, (fuel - 1) as nat);
    }
}

proof fn lemma_pow2_exceeds_exponent(e: nat)
    ensures
        e < pow2(e),
    decreases e,
{
    if e == 0 {
        lemma2_to64();
    } else {
        lemma_pow2_exceeds_exponent((e - 1) as nat);
        lemma_pow2_unfold(e);
    }
}

/// The depth bound of weighted union: every element's path to its root has
/// some length `k` with `pow2(k) <= n`, that is, at most `floor(log2(n))`
/// steps — after any sequence of unions, path compression or not.
pub proof fn lemma_depth_bound(u: WeightedQuickUnion, i: int)
    requires
        u.wf(),
        0 <= i < u.n(),
    ensures
        steps_to_root(u.parents(), i, u.n() as nat) is Some,
        pow2(steps_to_root(u.parents(), i, u.n() as nat)->Some_0) <= u.n(),
{
    let r = u.rep@[i];
    let comp = u.component(r);
    assert(u.rep@[r] == r);
    assert(u.sizes@[r] == comp.len());
    lemma_int_range(0, u.n());
    lemma_len_subset(comp, set_int_range(0, u.n()));
    assert(pow2(u.dist@[i]) <= u.n());
    lemma_pow2_exceeds_exponent(u.dist@[i]);
    lemma_steps_bounded_by_dist(u, i, u.n() as nat);
    let k = steps_to_root(u.parents(), i, u.n() as nat)->Some_0;
    if k < u.dist@[i] {
        vstd::arithmetic::power2::lemma_pow2_strictly_increases(k, u.dist@[i]);
    }
}

} // verus!
