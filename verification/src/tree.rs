use vstd::prelude::*;

verus! {

/// The topology of the flow layout arena: a forest of flow nodes stored flat and linked
/// by indices. Each node has at most one flow parent and an ordered list of flow children.
/// A node without a flow parent is the root of a maximal flow subtree.
pub struct FlowTree {
    parents: Vec<Option<usize>>,
    children: Vec<Vec<usize>>,
    /// A rank strictly decreasing from every parent to each of its children.
    rank: Ghost<Seq<int>>,
    /// Lower bound of all ranks.
    floor: Ghost<int>,
    /// Upper bound of all ranks.
    ceil: Ghost<int>,
    /// The root of the tree that each node belongs to.
    root: Ghost<Seq<int>>,
}

impl FlowTree {
    /// Number of nodes in the arena.
    pub closed spec fn node_count(&self) -> nat {
        self.parents@.len()
    }

    /// The flow parent of node `i`.
    pub closed spec fn parent_of(&self, i: int) -> Option<usize> {
        self.parents@[i]
    }

    /// The ordered flow children of node `i`.
    pub closed spec fn children_of(&self, i: int) -> Seq<usize> {
        self.children@[i]@
    }

    /// The root of the flow subtree that node `i` belongs to.
    pub closed spec fn tree_root(&self, i: int) -> int {
        self.root@[i]
    }

    closed spec fn rank_of(&self, i: int) -> int {
        self.rank@[i]
    }

    /// Facts about one node: its rank, its link to its parent and to its children.
    closed spec fn node_wf(&self, i: int) -> bool {
        &&& self.floor@ <= self.rank@[i] <= self.ceil@
        &&& match self.parent_of(i) {
            Some(p) => {
                &&& p < self.node_count()
                &&& self.children_of(p as int).contains(i as usize)
                &&& self.rank@[i] < self.rank@[p as int]
                &&& self.root@[i] == self.root@[p as int]
            },
            None => self.root@[i] == i,
        }
        &&& forall|k: int|
            0 <= k < self.children_of(i).len() ==> {
                &&& #[trigger] self.children_of(i)[k] < self.node_count()
                &&& self.parent_of(self.children_of(i)[k] as int) == Some(i as usize)
            }
        &&& forall|k1: int, k2: int|
            0 <= k1 < k2 < self.children_of(i).len() ==> #[trigger] self.children_of(i)[k1]
                != #[trigger] self.children_of(i)[k2]
    }

    /// Well-formedness: parent and children links agree, children lists hold no duplicates,
    /// and the links form no cycle (ranks strictly decrease from parents to children).
    pub closed spec fn wf(&self) -> bool {
        &&& self.children@.len() == self.parents@.len()
        &&& self.rank@.len() == self.parents@.len()
        &&& self.root@.len() == self.parents@.len()
        &&& self.floor@ <= self.ceil@
        &&& self.parents@.len() <= usize::MAX
        &&& forall|i: int| 0 <= i < self.node_count() ==> #[trigger] self.node_wf(i)
    }

    /// Fuel that suffices to unfold the preorder of any node.
    closed spec fn fuel(&self) -> nat {
        (self.ceil@ - self.floor@ + 1) as nat
    }

    /// Preorder of the subtree rooted at `i`, unfolding at most `fuel` levels.
    closed spec fn pre(&self, i: int, fuel: nat) -> Seq<usize>
        decreases fuel, 0int, 0int,
    {
        if fuel == 0 {
            Seq::empty()
        } else {
            seq![i as usize] + self.pre_list(self.children_of(i), (fuel - 1) as nat)
        }
    }

    /// Concatenated preorders of the subtrees rooted at `cs`, in order.
    closed spec fn pre_list(&self, cs: Seq<usize>, fuel: nat) -> Seq<usize>
        decreases fuel, 1int, cs.len(),
    {
        if cs.len() == 0 {
            Seq::empty()
        } else {
            self.pre(cs[0] as int, fuel) + self.pre_list(cs.drop_first(), fuel)
        }
    }

    /// The preorder (node first, then the subtrees of its children in order) of the
    /// subtree rooted at `i`.
    pub closed spec fn preorder(&self, i: int) -> Seq<usize> {
        self.pre(i, self.fuel())
    }

    /// The concatenated preorders of the subtrees rooted at the nodes `cs`, in order.
    pub closed spec fn preorder_forest(&self, cs: Seq<usize>) -> Seq<usize> {
        self.pre_list(cs, self.fuel())
    }

    proof fn lemma_pre_fuel(&self, i: int, f1: nat, f2: nat)
        requires
            self.wf(),
            0 <= i < self.node_count(),
            f1 > self.rank_of(i) - self.floor@,
            f2 > self.rank_of(i) - self.floor@,
        ensures
            self.pre(i, f1) == self.pre(i, f2),
        decreases f1, 0int, 0int,
    {
        assert(self.node_wf(i));
        let cs = self.children_of(i);
        assert forall|k: int| 0 <= k < cs.len() implies {
            &&& cs[k] < self.node_count()
            &&& (f1 - 1) as nat > self.rank_of(cs[k] as int) - self.floor@
            &&& (f2 - 1) as nat > self.rank_of(cs[k] as int) - self.floor@
        } by {
            assert(cs[k] < self.node_count());
            assert(self.parent_of(cs[k] as int) == Some(i as usize));
            assert(self.node_wf(cs[k] as int));
        }
        self.lemma_pre_list_fuel(cs, (f1 - 1) as nat, (f2 - 1) as nat);
    }

    proof fn lemma_pre_list_fuel(&self, cs: Seq<usize>, f1: nat, f2: nat)
        requires
            self.wf(),
            forall|k: int|
                0 <= k < cs.len() ==> {
                    &&& #[trigger] cs[k] < self.node_count()
                    &&& f1 > self.rank_of(cs[k] as int) - self.floor@
                    &&& f2 > self.rank_of(cs[k] as int) - self.floor@
                },
        ensures
            self.pre_list(cs, f1) == self.pre_list(cs, f2),
        decreases f1, 1int, cs.len(),
    {
        if cs.len() > 0 {
            assert(cs[0] < self.node_count());
            self.lemma_pre_fuel(cs[0] as int, f1, f2);
            let rest = cs.drop_first();
            assert forall|k: int| 0 <= k < rest.len() implies {
                &&& #[trigger] rest[k] < self.node_count()
                &&& f1 > self.rank_of(rest[k] as int) - self.floor@
                &&& f2 > self.rank_of(rest[k] as int) - self.floor@
            } by {
                assert(rest[k] == cs[k + 1]);
            }
            self.lemma_pre_list_fuel(rest, f1, f2);
        }
    }

    proof fn lemma_pre_list_concat(&self, a: Seq<usize>, b: Seq<usize>, f: nat)
        ensures
            self.pre_list(a + b, f) == self.pre_list(a, f) + self.pre_list(b, f),
        decreases a.len(),
    {
        if a.len() == 0 {
            assert(a + b =~= b);
        } else {
            assert((a + b)[0] == a[0]);
            assert((a + b).drop_first() =~= a.drop_first() + b);
            self.lemma_pre_list_concat(a.drop_first(), b, f);
            assert(self.pre_list(a + b, f) =~= self.pre_list(a, f) + self.pre_list(b, f));
        }
    }

    /// The preorder of a node's subtree is the node itself followed by the preorders of
    /// its children's subtrees, in the order of the children.
    pub proof fn lemma_preorder_unfold(&self, i: int)
        requires
            self.wf(),
            0 <= i < self.node_count(),
        ensures
            self.preorder(i) == seq![i as usize] + self.preorder_forest(self.children_of(i)),
    {
        assert(self.node_wf(i));
        let cs = self.children_of(i);
        let f = self.fuel();
        assert forall|k: int| 0 <= k < cs.len() implies {
            &&& #[trigger] cs[k] < self.node_count()
            &&& (f - 1) as nat > self.rank_of(cs[k] as int) - self.floor@
            &&& f > self.rank_of(cs[k] as int) - self.floor@
        } by {
            assert(self.parent_of(cs[k] as int) == Some(i as usize));
            assert(self.node_wf(cs[k] as int));
        }
        self.lemma_pre_list_fuel(cs, (f - 1) as nat, f);
    }

    /// The preorder forest of no node is empty; that of a non-empty list of nodes is the
    /// preorder of the first node followed by the preorder forest of the others.
    pub proof fn lemma_preorder_forest_unfold(&self, cs: Seq<usize>)
        ensures
            cs.len() == 0 ==> self.preorder_forest(cs) == Seq::<usize>::empty(),
            cs.len() > 0 ==> self.preorder_forest(cs) == self.preorder(cs[0] as int)
                + self.preorder_forest(cs.drop_first()),
    {
    }

    /// Whether the parent of `s[k]` occurs in `s` before position `k`.
    closed spec fn parent_seen(&self, s: Seq<usize>, k: int) -> bool {
        exists|j: int| 0 <= j < k && self.parent_of(s[k] as int) == Some(#[trigger] s[j])
    }

    proof fn lemma_pre_parent_first(&self, i: int, f: nat)
        requires
            self.wf(),
            0 <= i < self.node_count(),
        ensures
            forall|k: int| 0 <= k < self.pre(i, f).len() ==> #[trigger] self.pre(i, f)[k] < self.node_count(),
            f > 0 ==> self.pre(i, f).len() > 0 && self.pre(i, f)[0] == i,
            forall|k: int| 0 < k < self.pre(i, f).len() ==> #[trigger] self.parent_seen(self.pre(i, f), k),
        decreases f, 0int, 0int,
    {
        if f > 0 {
            assert(self.node_wf(i));
            let cs = self.children_of(i);
            self.lemma_pre_list_parent_first(cs, (f - 1) as nat, i);
            let t = self.pre_list(cs, (f - 1) as nat);
            let s = self.pre(i, f);
            assert(s == seq![i as usize] + t);
            assert forall|k: int| 0 < k < s.len() implies #[trigger] self.parent_seen(s, k) by {
                assert(s[k] == t[k - 1]);
                if cs.contains(t[k - 1]) {
                    let m = choose|m: int| 0 <= m < cs.len() && cs[m] == t[k - 1];
                    assert(self.parent_of(cs[m] as int) == Some(i as usize));
                    assert(s[0] == i as usize);
                } else {
                    assert(self.parent_seen(t, k - 1));
                    let j = choose|j: int| 0 <= j < k - 1 && self.parent_of(t[k - 1] as int) == Some(#[trigger] t[j]);
                    assert(s[j + 1] == t[j]);
                }
            }
            assert forall|k: int| 0 <= k < s.len() implies #[trigger] s[k] < self.node_count() by {
                if k > 0 {
                    assert(s[k] == t[k - 1]);
                }
            }
        }
    }

    proof fn lemma_pre_list_parent_first(&self, cs: Seq<usize>, f: nat, q: int)
        requires
            self.wf(),
            0 <= q < self.node_count(),
            forall|k: int|
                0 <= k < cs.len() ==> #[trigger] cs[k] < self.node_count() && self.parent_of(
                    cs[k] as int,
                ) == Some(q as usize),
        ensures
            forall|k: int| 0 <= k < self.pre_list(cs, f).len() ==> #[trigger] self.pre_list(cs, f)[k] < self.node_count(),
            forall|k: int|
                0 <= k < self.pre_list(cs, f).len() ==> cs.contains(#[trigger] self.pre_list(cs, f)[k])
                    || self.parent_seen(self.pre_list(cs, f), k),
        decreases f, 1int, cs.len(),
    {
        if cs.len() > 0 {
            let rest = cs.drop_first();
            assert(cs[0] < self.node_count());
            self.lemma_pre_parent_first(cs[0] as int, f);
            assert forall|k: int| 0 <= k < rest.len() implies #[trigger] rest[k] < self.node_count()
                && self.parent_of(rest[k] as int) == Some(q as usize) by {
                assert(rest[k] == cs[k + 1]);
            }
            self.lemma_pre_list_parent_first(rest, f, q);
            let a = self.pre(cs[0] as int, f);
            let b = self.pre_list(rest, f);
            let s = self.pre_list(cs, f);
            assert(s == a + b);
            assert forall|k: int| 0 <= k < s.len() implies #[trigger] s[k] < self.node_count() by {
                if k < a.len() {
                    assert(s[k] == a[k]);
                } else {
                    assert(s[k] == b[k - a.len()]);
                }
            }
            assert forall|k: int| 0 <= k < s.len() implies cs.contains(#[trigger] s[k])
                || self.parent_seen(s, k) by {
                if k < a.len() {
                    assert(s[k] == a[k]);
                    if k == 0 {
                        assert(cs[0] == s[0]);
                    } else {
                        assert(self.parent_seen(a, k));
                        let j = choose|j: int| 0 <= j < k && self.parent_of(a[k] as int) == Some(#[trigger] a[j]);
                        assert(s[j] == a[j]);
                    }
                } else {
                    let kb = k - a.len();
                    assert(s[k] == b[kb]);
                    if rest.contains(b[kb]) {
                        let m = choose|m: int| 0 <= m < rest.len() && rest[m] == b[kb];
                        assert(cs[m + 1] == b[kb]);
                    } else {
                        assert(self.parent_seen(b, kb));
                        let j = choose|j: int| 0 <= j < kb && self.parent_of(b[kb] as int) == Some(#[trigger] b[j]);
                        assert(s[j + a.len()] == b[j]);
                    }
                }
            }
        }
    }

    /// In the preorder of a subtree the subtree root comes first, every entry is a node of
    /// the arena, and every other node comes after its own flow parent. Walking it backwards
    /// therefore visits children before their parents.
    pub proof fn lemma_preorder_parent_first(&self, i: int)
        requires
            self.wf(),
            0 <= i < self.node_count(),
        ensures
            self.preorder(i).len() >= 1,
            self.preorder(i)[0] == i,
            forall|k: int| 0 <= k < self.preorder(i).len() ==> #[trigger] self.preorder(i)[k] < self.node_count(),
            forall|k: int|
                0 < k < self.preorder(i).len() ==> exists|j: int|
                    0 <= j < k && self.parent_of(#[trigger] self.preorder(i)[k] as int) == Some(
                        self.preorder(i)[j],
                    ),
    {
        self.lemma_pre_parent_first(i, self.fuel());
        let s = self.preorder(i);
        assert forall|k: int| 0 < k < s.len() implies exists|j: int|
            0 <= j < k && self.parent_of(#[trigger] s[k] as int) == Some(s[j]) by {
            assert(self.parent_seen(s, k));
        }
    }

    /// The node reached from `x` by following `n` flow parent links, or `-1` once a root
    /// has been passed.
    pub open spec fn anc(&self, x: int, n: nat) -> int
        decreases n,
    {
        if n == 0 {
            x
        } else {
            let y = self.anc(x, (n - 1) as nat);
            if 0 <= y < self.node_count() {
                match self.parent_of(y) {
                    Some(p) => p as int,
                    None => -1,
                }
            } else {
                -1
            }
        }
    }

    /// Whether `a` lies on the flow parent chain of `x` (`x` itself included): `x` is a node
    /// of the subtree rooted at `a`.
    pub open spec fn descends(&self, x: int, a: int) -> bool {
        exists|n: nat| #[trigger] self.anc(x, n) == a
    }

    proof fn lemma_anc_rank(&self, x: int, n: nat)
        requires
            self.wf(),
            0 <= x < self.node_count(),
        ensures
            self.anc(x, n) == -1 || (0 <= self.anc(x, n) < self.node_count() && self.rank_of(
                self.anc(x, n),
            ) >= self.rank_of(x) + n),
        decreases n,
    {
        if n > 0 {
            self.lemma_anc_rank(x, (n - 1) as nat);
            let y = self.anc(x, (n - 1) as nat);
            if 0 <= y < self.node_count() {
                assert(self.node_wf(y));
            }
        }
    }

    proof fn lemma_anc_compose(&self, x: int, m: nat, d: nat)
        ensures
            self.anc(x, m + d) == self.anc(self.anc(x, m), d),
        decreases d,
    {
        if d > 0 {
            self.lemma_anc_compose(x, m, (d - 1) as nat);
            assert((m + d - 1) as nat == m + (d - 1) as nat);
        }
    }

    /// Two distinct children of the same node have no common descendant.
    proof fn lemma_sibling_disjoint(&self, x: int, c1: int, c2: int, q: int)
        requires
            self.wf(),
            0 <= x < self.node_count(),
            0 <= c1 < self.node_count(),
            0 <= c2 < self.node_count(),
            0 <= q < self.node_count(),
            self.parent_of(c1) == Some(q as usize),
            self.parent_of(c2) == Some(q as usize),
            self.descends(x, c1),
            self.descends(x, c2),
        ensures
            c1 == c2,
    {
        let n1 = choose|n: nat| #[trigger] self.anc(x, n) == c1;
        let n2 = choose|n: nat| #[trigger] self.anc(x, n) == c2;
        assert(self.anc(x, n1 + 1) == q);
        assert(self.anc(x, n2 + 1) == q);
        assert(self.node_wf(c1));
        if n1 < n2 {
            let d = (n2 - n1) as nat;
            self.lemma_anc_compose(x, n1 + 1, d);
            assert(n1 + 1 + d == n2 + 1);
            self.lemma_anc_rank(q, d);
            assert(self.node_wf(q));
        } else if n2 < n1 {
            let d = (n1 - n2) as nat;
            self.lemma_anc_compose(x, n2 + 1, d);
            assert(n2 + 1 + d == n1 + 1);
            self.lemma_anc_rank(q, d);
            assert(self.node_wf(q));
        }
    }

    proof fn lemma_pre_distinct(&self, i: int, f: nat)
        requires
            self.wf(),
            0 <= i < self.node_count(),
        ensures
            self.pre(i, f).no_duplicates(),
            forall|k: int| 0 <= k < self.pre(i, f).len() ==> self.descends(#[trigger] self.pre(i, f)[k] as int, i),
        decreases f, 0int, 0int,
    {
        self.lemma_pre_parent_first(i, f);
        if f > 0 {
            assert(self.node_wf(i));
            let cs = self.children_of(i);
            self.lemma_pre_list_distinct(cs, (f - 1) as nat, i);
            self.lemma_pre_list_parent_first(cs, (f - 1) as nat, i);
            let t = self.pre_list(cs, (f - 1) as nat);
            let s = self.pre(i, f);
            assert(s == seq![i as usize] + t);
            assert(self.anc(i, 0) == i);
            assert forall|k: int| 0 <= k < t.len() implies self.descends(#[trigger] t[k] as int, i)
                && t[k] != i by {
                let m = choose|m: int| 0 <= m < cs.len() && self.descends(t[k] as int, #[trigger] cs[m] as int);
                let n = choose|n: nat| #[trigger] self.anc(t[k] as int, n) == cs[m] as int;
                assert(self.node_wf(cs[m] as int));
                assert(self.anc(t[k] as int, n + 1) == i);
                self.lemma_anc_rank(t[k] as int, n);
            }
            assert forall|k: int| 0 <= k < s.len() implies self.descends(#[trigger] s[k] as int, i) by {
                if k > 0 {
                    assert(s[k] == t[k - 1]);
                }
            }
            assert forall|a: int, b: int| 0 <= a < s.len() && 0 <= b < s.len() && a != b implies s[a] != s[b] by {
                if a > 0 && b > 0 {
                    assert(s[a] == t[a - 1] && s[b] == t[b - 1]);
                } else if a == 0 {
                    assert(s[b] == t[b - 1]);
                } else {
                    assert(s[a] == t[a - 1]);
                }
            }
        }
    }

    proof fn lemma_pre_list_distinct(&self, cs: Seq<usize>, f: nat, q: int)
        requires
            self.wf(),
            0 <= q < self.node_count(),
            cs.no_duplicates(),
            forall|k: int|
                0 <= k < cs.len() ==> #[trigger] cs[k] < self.node_count() && self.parent_of(
                    cs[k] as int,
                ) == Some(q as usize),
        ensures
            self.pre_list(cs, f).no_duplicates(),
            forall|k: int|
                0 <= k < self.pre_list(cs, f).len() ==> exists|m: int|
                    0 <= m < cs.len() && self.descends(#[trigger] self.pre_list(cs, f)[k] as int, #[trigger] cs[m] as int),
        decreases f, 1int, cs.len(),
    {
        if cs.len() > 0 {
            let rest = cs.drop_first();
            assert(cs[0] < self.node_count());
            self.lemma_pre_distinct(cs[0] as int, f);
            self.lemma_pre_parent_first(cs[0] as int, f);
            assert forall|k: int| 0 <= k < rest.len() implies #[trigger] rest[k] < self.node_count()
                && self.parent_of(rest[k] as int) == Some(q as usize) by {
                assert(rest[k] == cs[k + 1]);
            }
            assert(rest.no_duplicates()) by {
                assert forall|a: int, b: int| 0 <= a < rest.len() && 0 <= b < rest.len() && a != b implies rest[a] != rest[b] by {
                    assert(rest[a] == cs[a + 1] && rest[b] == cs[b + 1]);
                }
            }
            self.lemma_pre_list_distinct(rest, f, q);
            self.lemma_pre_list_parent_first(rest, f, q);
            let a = self.pre(cs[0] as int, f);
            let b = self.pre_list(rest, f);
            let s = self.pre_list(cs, f);
            assert(s == a + b);
            assert forall|k: int| 0 <= k < s.len() implies exists|m: int|
                0 <= m < cs.len() && self.descends(#[trigger] s[k] as int, #[trigger] cs[m] as int) by {
                if k < a.len() {
                    assert(s[k] == a[k]);
                    assert(self.descends(s[k] as int, cs[0] as int));
                } else {
                    assert(s[k] == b[k - a.len()]);
                    let m = choose|m: int| 0 <= m < rest.len() && self.descends(b[k - a.len()] as int, #[trigger] rest[m] as int);
                    assert(rest[m] == cs[m + 1]);
                }
            }
            assert forall|x: int, y: int| 0 <= x < s.len() && 0 <= y < s.len() && x != y implies s[x] != s[y] by {
                if x < a.len() && y < a.len() {
                    assert(s[x] == a[x] && s[y] == a[y]);
                } else if x >= a.len() && y >= a.len() {
                    assert(s[x] == b[x - a.len()] && s[y] == b[y - a.len()]);
                } else {
                    let (u, v) = if x < a.len() { (x, y) } else { (y, x) };
                    assert(s[u] == a[u]);
                    assert(s[v] == b[v - a.len()]);
                    if s[u] == s[v] {
                        let m = choose|m: int| 0 <= m < rest.len() && self.descends(b[v - a.len()] as int, #[trigger] rest[m] as int);
                        assert(rest[m] == cs[m + 1]);
                        assert(self.descends(a[u] as int, cs[0] as int));
                        self.lemma_sibling_disjoint(s[u] as int, cs[0] as int, cs[m + 1] as int, q);
                        assert(cs[0] != cs[m + 1]);
                    }
                }
            }
        }
    }

    /// The preorder of a subtree lists every node at most once, and each of its nodes
    /// reaches the subtree root by following flow parent links.
    pub proof fn lemma_preorder_distinct(&self, i: int)
        requires
            self.wf(),
            0 <= i < self.node_count(),
        ensures
            self.preorder(i).no_duplicates(),
            forall|k: int| 0 <= k < self.preorder(i).len() ==> self.descends(#[trigger] self.preorder(i)[k] as int, i),
    {
        self.lemma_pre_distinct(i, self.fuel());
    }

    proof fn lemma_pre_list_block(&self, cs: Seq<usize>, f: nat, m: int, x: usize)
        requires
            0 <= m < cs.len(),
            self.pre(cs[m] as int, f).contains(x),
        ensures
            self.pre_list(cs, f).contains(x),
        decreases cs.len(),
    {
        let a = self.pre(cs[0] as int, f);
        let b = self.pre_list(cs.drop_first(), f);
        assert(self.pre_list(cs, f) == a + b);
        if m == 0 {
            let k = choose|k: int| 0 <= k < a.len() && a[k] == x;
            assert((a + b)[k] == x);
        } else {
            assert(cs.drop_first()[m - 1] == cs[m]);
            self.lemma_pre_list_block(cs.drop_first(), f, m - 1, x);
            let k = choose|k: int| 0 <= k < b.len() && b[k] == x;
            assert((a + b)[a.len() + k] == x);
        }
    }

    proof fn lemma_preorder_complete_at(&self, i: int, x: int, n: nat)
        requires
            self.wf(),
            0 <= i < self.node_count(),
            0 <= x < self.node_count(),
            self.anc(x, n) == i,
        ensures
            self.preorder(i).contains(x as usize),
        decreases n,
    {
        self.lemma_preorder_parent_first(i);
        if n == 0 {
            assert(self.preorder(i)[0] == x as usize);
        } else {
            let c = self.anc(x, (n - 1) as nat);
            assert(0 <= c < self.node_count());
            assert(self.parent_of(c) == Some(i as usize));
            assert(self.node_wf(c));
            let cs = self.children_of(i);
            assert(cs.contains(c as usize));
            let m = choose|m: int| 0 <= m < cs.len() && cs[m] == c as usize;
            self.lemma_preorder_complete_at(c, x, (n - 1) as nat);
            self.lemma_pre_list_block(cs, self.fuel(), m, x as usize);
            self.lemma_preorder_unfold(i);
            let t = self.preorder_forest(cs);
            let k = choose|k: int| 0 <= k < t.len() && t[k] == x as usize;
            assert((seq![i as usize] + t)[k + 1] == x as usize);
        }
    }

    /// The preorder of a subtree holds every node that reaches the subtree root by
    /// following flow parent links.
    pub proof fn lemma_preorder_complete(&self, i: int, x: int)
        requires
            self.wf(),
            0 <= i < self.node_count(),
            0 <= x < self.node_count(),
            self.descends(x, i),
        ensures
            self.preorder(i).contains(x as usize),
    {
        let n = choose|n: nat| #[trigger] self.anc(x, n) == i;
        self.lemma_preorder_complete_at(i, x, n);
    }

    /// The preorder of `x` only reads the children lists of the nodes that it lists.
    proof fn lemma_pre_same_children(&self, other: &FlowTree, x: int, f: nat)
        requires
            forall|k: int|
                0 <= k < other.pre(x, f).len() ==> self.children_of(#[trigger] other.pre(x, f)[k] as int)
                    == other.children_of(other.pre(x, f)[k] as int),
            0 <= x <= usize::MAX,
        ensures
            self.pre(x, f) == other.pre(x, f),
        decreases f, 0int, 0int,
    {
        if f > 0 {
            let t = other.pre_list(other.children_of(x), (f - 1) as nat);
            let s = other.pre(x, f);
            assert(s == seq![x as usize] + t);
            assert(s[0] == x as usize);
            assert(self.children_of(x) == other.children_of(x));
            assert forall|k: int| 0 <= k < t.len() implies self.children_of(#[trigger] t[k] as int)
                == other.children_of(t[k] as int) by {
                assert(s[k + 1] == t[k]);
            }
            self.lemma_pre_list_same_children(other, other.children_of(x), (f - 1) as nat);
        }
    }

    proof fn lemma_pre_list_same_children(&self, other: &FlowTree, cs: Seq<usize>, f: nat)
        requires
            forall|k: int|
                0 <= k < other.pre_list(cs, f).len() ==> self.children_of(
                    #[trigger] other.pre_list(cs, f)[k] as int,
                ) == other.children_of(other.pre_list(cs, f)[k] as int),
        ensures
            self.pre_list(cs, f) == other.pre_list(cs, f),
        decreases f, 1int, cs.len(),
    {
        if cs.len() > 0 {
            let a = other.pre(cs[0] as int, f);
            let b = other.pre_list(cs.drop_first(), f);
            let s = other.pre_list(cs, f);
            assert(s == a + b);
            assert forall|k: int| 0 <= k < a.len() implies self.children_of(#[trigger] a[k] as int)
                == other.children_of(a[k] as int) by {
                assert(s[k] == a[k]);
            }
            assert forall|k: int| 0 <= k < b.len() implies self.children_of(#[trigger] b[k] as int)
                == other.children_of(b[k] as int) by {
                assert(s[k + a.len()] == b[k]);
            }
            self.lemma_pre_same_children(other, cs[0] as int, f);
            self.lemma_pre_list_same_children(other, cs.drop_first(), f);
        }
    }

    /// A fuel that unfolds every preorder completely in both `self` and `other`.
    closed spec fn common_fuel(&self, other: &FlowTree) -> nat {
        (self.fuel() + other.fuel() + 1) as nat
    }

    proof fn lemma_common_fuel(&self, other: &FlowTree, x: int)
        requires
            self.wf(),
            other.wf(),
            0 <= x < self.node_count(),
            0 <= x < other.node_count(),
        ensures
            self.preorder(x) == self.pre(x, self.common_fuel(other)),
            other.preorder(x) == other.pre(x, self.common_fuel(other)),
            self.common_fuel(other) >= 2,
    {
        assert(self.node_wf(x));
        assert(other.node_wf(x));
        self.lemma_pre_fuel(x, self.fuel(), self.common_fuel(other));
        other.lemma_pre_fuel(x, other.fuel(), self.common_fuel(other));
    }

    /// Pushing a node changes only the traversals that reach its parent: the new node's
    /// subtree is the node alone, the parent's preorder gains the new node at its end, and
    /// every node whose subtree does not hold the parent keeps its preorder.
    pub proof fn lemma_push_preorder(old_tree: &FlowTree, new_tree: &FlowTree, parent: Option<usize>, index: usize)
        requires
            old_tree.wf(),
            new_tree.wf(),
            index == old_tree.node_count(),
            new_tree.node_count() == old_tree.node_count() + 1,
            parent matches Some(p) ==> p < old_tree.node_count(),
            new_tree.children_of(index as int) == Seq::<usize>::empty(),
            forall|j: int|
                0 <= j < old_tree.node_count() ==> #[trigger] new_tree.children_of(j) == if parent
                    == Some(j as usize) {
                    old_tree.children_of(j).push(index)
                } else {
                    old_tree.children_of(j)
                },
        ensures
            new_tree.preorder(index as int) == seq![index],
            parent matches Some(p) ==> new_tree.preorder(p as int) == old_tree.preorder(p as int).push(index),
            forall|x: int|
                0 <= x < old_tree.node_count() && (parent matches Some(p) ==> !old_tree.preorder(x).contains(p))
                    ==> #[trigger] new_tree.preorder(x) == old_tree.preorder(x),
    {
        // The new node is a leaf.
        new_tree.lemma_preorder_unfold(index as int);
        new_tree.lemma_preorder_forest_unfold(new_tree.children_of(index as int));
        assert(new_tree.preorder(index as int) =~= seq![index]);
        // Nodes whose subtree avoids the parent keep their children lists.
        assert forall|x: int|
            0 <= x < old_tree.node_count() && (parent matches Some(p) ==> !old_tree.preorder(x).contains(p))
                implies #[trigger] new_tree.preorder(x) == old_tree.preorder(x) by {
            let g = new_tree.common_fuel(old_tree);
            new_tree.lemma_common_fuel(old_tree, x);
            old_tree.lemma_preorder_parent_first(x);
            let s = old_tree.pre(x, g);
            assert forall|k: int| 0 <= k < s.len() implies new_tree.children_of(#[trigger] s[k] as int)
                == old_tree.children_of(s[k] as int) by {
                assert(s[k] < old_tree.node_count());
                if let Some(p) = parent {
                    if s[k] == p {
                        assert(old_tree.preorder(x).contains(p));
                    }
                }
            }
            new_tree.lemma_pre_same_children(old_tree, x, g);
        }
        if let Some(p) = parent {
            let p = p as int;
            let g = new_tree.common_fuel(old_tree);
            new_tree.lemma_common_fuel(old_tree, p);
            old_tree.lemma_pre_distinct(p, g);
            old_tree.lemma_pre_parent_first(p, g);
            let cs = old_tree.children_of(p);
            let t = old_tree.pre_list(cs, (g - 1) as nat);
            let s = old_tree.pre(p, g);
            assert(s == seq![p as usize] + t);
            // The parent does not lie below its own children.
            assert forall|k: int| 0 <= k < t.len() implies new_tree.children_of(#[trigger] t[k] as int)
                == old_tree.children_of(t[k] as int) by {
                assert(s[k + 1] == t[k]);
                assert(s[k + 1] != s[0]);
                assert(t[k] < old_tree.node_count());
            }
            new_tree.lemma_pre_list_same_children(old_tree, cs, (g - 1) as nat);
            // The new node closes the parent's traversal.
            new_tree.lemma_pre_list_concat(cs, seq![index], (g - 1) as nat);
            assert(cs.push(index) =~= cs + seq![index]);
            assert(seq![index].drop_first() =~= Seq::<usize>::empty());
            assert(new_tree.pre(index as int, (g - 1) as nat) =~= seq![index]);
            let one = seq![index];
            assert(one.len() == 1 && one[0] == index);
            assert(new_tree.pre_list(one.drop_first(), (g - 1) as nat) == Seq::<usize>::empty());
            assert(new_tree.pre_list(one, (g - 1) as nat) == new_tree.pre(index as int, (g - 1) as nat)
                + new_tree.pre_list(one.drop_first(), (g - 1) as nat));
            assert(new_tree.pre_list(one, (g - 1) as nat) =~= seq![index]);
            assert(new_tree.pre(p, g) =~= s.push(index));
        }
    }

    proof fn lemma_descends_same_root(&self, x: int, n: nat)
        requires
            self.wf(),
            0 <= x < self.node_count(),
            0 <= self.anc(x, n),
        ensures
            0 <= self.anc(x, n) < self.node_count(),
            self.tree_root(self.anc(x, n)) == self.tree_root(x),
        decreases n,
    {
        if n > 0 {
            self.lemma_anc_rank(x, (n - 1) as nat);
            let y = self.anc(x, (n - 1) as nat);
            assert(0 <= y);
            self.lemma_descends_same_root(x, (n - 1) as nat);
            assert(self.node_wf(y));
        }
    }

    /// Reparenting changes only the traversals that reach the new parent: the parent's
    /// preorder gains the child's whole subtree at its end, and every node whose subtree
    /// does not hold the parent keeps its preorder.
    pub proof fn lemma_reparent_preorder(old_tree: &FlowTree, new_tree: &FlowTree, child: usize, parent: usize)
        requires
            old_tree.wf(),
            new_tree.wf(),
            new_tree.node_count() == old_tree.node_count(),
            child < old_tree.node_count(),
            parent < old_tree.node_count(),
            old_tree.parent_of(child as int) is None,
            old_tree.tree_root(parent as int) != child,
            forall|j: int|
                0 <= j < old_tree.node_count() ==> #[trigger] new_tree.children_of(j) == if j
                    == parent {
                    old_tree.children_of(j).push(child)
                } else {
                    old_tree.children_of(j)
                },
        ensures
            new_tree.preorder(parent as int) == old_tree.preorder(parent as int) + old_tree.preorder(child as int),
            forall|x: int|
                0 <= x < old_tree.node_count() && !old_tree.preorder(x).contains(parent)
                    ==> #[trigger] new_tree.preorder(x) == old_tree.preorder(x),
    {
        assert forall|x: int|
            0 <= x < old_tree.node_count() && !old_tree.preorder(x).contains(parent)
                implies #[trigger] new_tree.preorder(x) == old_tree.preorder(x) by {
            let g = new_tree.common_fuel(old_tree);
            new_tree.lemma_common_fuel(old_tree, x);
            old_tree.lemma_preorder_parent_first(x);
            let s = old_tree.pre(x, g);
            assert forall|k: int| 0 <= k < s.len() implies new_tree.children_of(#[trigger] s[k] as int)
                == old_tree.children_of(s[k] as int) by {
                assert(s[k] < old_tree.node_count());
                if s[k] == parent {
                    assert(old_tree.preorder(x).contains(parent));
                }
            }
            new_tree.lemma_pre_same_children(old_tree, x, g);
        }
        let p = parent as int;
        let c = child as int;
        let g = new_tree.common_fuel(old_tree);
        new_tree.lemma_common_fuel(old_tree, p);
        old_tree.lemma_pre_distinct(p, g);
        old_tree.lemma_pre_parent_first(p, g);
        let cs = old_tree.children_of(p);
        let t = old_tree.pre_list(cs, (g - 1) as nat);
        let s = old_tree.pre(p, g);
        assert(s == seq![p as usize] + t);
        assert forall|k: int| 0 <= k < t.len() implies new_tree.children_of(#[trigger] t[k] as int)
            == old_tree.children_of(t[k] as int) by {
            assert(s[k + 1] == t[k]);
            assert(s[k + 1] != s[0]);
            assert(t[k] < old_tree.node_count());
        }
        new_tree.lemma_pre_list_same_children(old_tree, cs, (g - 1) as nat);
        // The child's subtree lies in the child's own tree, which does not hold the parent.
        let gc = (g - 1) as nat;
        old_tree.lemma_pre_distinct(c, gc);
        old_tree.lemma_pre_parent_first(c, gc);
        assert(old_tree.node_wf(c));
        let sc = old_tree.pre(c, gc);
        assert forall|k: int| 0 <= k < sc.len() implies new_tree.children_of(#[trigger] sc[k] as int)
            == old_tree.children_of(sc[k] as int) by {
            assert(sc[k] < old_tree.node_count());
            assert(old_tree.descends(sc[k] as int, c));
            let n = choose|n: nat| #[trigger] old_tree.anc(sc[k] as int, n) == c;
            old_tree.lemma_descends_same_root(sc[k] as int, n);
            assert(old_tree.tree_root(sc[k] as int) == c);
        }
        new_tree.lemma_pre_same_children(old_tree, c, gc);
        assert(old_tree.fuel() < gc);
        old_tree.lemma_pre_fuel(c, old_tree.fuel(), gc);
        // The child closes the parent's traversal.
        new_tree.lemma_pre_list_concat(cs, seq![child], gc);
        assert(cs.push(child) =~= cs + seq![child]);
        let one = seq![child];
        assert(one.len() == 1 && one[0] == child);
        assert(one.drop_first() =~= Seq::<usize>::empty());
        assert(new_tree.pre_list(one.drop_first(), gc) == Seq::<usize>::empty());
        assert(new_tree.pre_list(one, gc) == new_tree.pre(c, gc) + new_tree.pre_list(one.drop_first(), gc));
        assert(new_tree.pre_list(one, gc) =~= sc);
        assert(new_tree.pre(p, g) =~= s + sc);
    }

    /// Creates an empty arena.
    pub fn new() -> (tree: Self)
        ensures
            tree.wf(),
            tree.node_count() == 0,
    {
        FlowTree {
            parents: Vec::new(),
            children: Vec::new(),
            rank: Ghost(Seq::empty()),
            floor: Ghost(0),
            ceil: Ghost(0),
            root: Ghost(Seq::empty()),
        }
    }

    /// Number of nodes in the arena.
    pub fn len(&self) -> (n: usize)
        requires
            self.wf(),
        ensures
            n == self.node_count(),
    {
        self.parents.len()
    }

    /// Clears the arena, retaining its capacity for reuse.
    pub fn clear(&mut self)
        ensures
            final(self).wf(),
            final(self).node_count() == 0,
    {
        self.parents.clear();
        self.children.clear();
        self.rank = Ghost(Seq::empty());
        self.floor = Ghost(0);
        self.ceil = Ghost(0);
        self.root = Ghost(Seq::empty());
    }

    /// Whether the node is the root of a maximal flow subtree (has no flow parent).
    pub fn is_root(&self, index: usize) -> (r: bool)
        requires
            self.wf(),
            index < self.node_count(),
        ensures
            r == (self.parent_of(index as int) is None),
    {
        self.parents[index].is_none()
    }

    /// The flow parent of a node.
    pub fn parent(&self, index: usize) -> (r: Option<usize>)
        requires
            self.wf(),
            index < self.node_count(),
        ensures
            r == self.parent_of(index as int),
    {
        self.parents[index]
    }

    /// The ordered flow children of a node.
    pub fn children(&self, index: usize) -> (r: &Vec<usize>)
        requires
            self.wf(),
            index < self.node_count(),
        ensures
            r@ == self.children_of(index as int),
    {
        &self.children[index]
    }

    /// Pushes a new node into the arena and returns its index, attaching it as the last
    /// flow child of `parent` if one is given.
    pub fn push(&mut self, parent: Option<usize>) -> (index: usize)
        requires
            old(self).wf(),
            parent matches Some(p) ==> p < old(self).node_count(),
        ensures
            final(self).wf(),
            index == old(self).node_count(),
            final(self).node_count() == old(self).node_count() + 1,
            final(self).parent_of(index as int) == parent,
            final(self).children_of(index as int) == Seq::<usize>::empty(),
            final(self).tree_root(index as int) == (match parent {
                Some(p) => old(self).tree_root(p as int),
                None => index as int,
            }),
            forall|j: int|
                0 <= j < old(self).node_count() ==> {
                    &&& #[trigger] final(self).parent_of(j) == old(self).parent_of(j)
                    &&& final(self).tree_root(j) == old(self).tree_root(j)
                    &&& final(self).children_of(j) == if parent == Some(j as usize) {
                        old(self).children_of(j).push(index)
                    } else {
                        old(self).children_of(j)
                    }
                },
    {
        let index = self.parents.len();
        proof {
            assert forall|i: int| 0 <= i < self.node_count() implies !self.children_of(i).contains(
                index,
            ) by {
                assert(self.node_wf(i));
            }
        }
        match parent {
            Some(p) => {
                self.children[p].push(index);
                proof {
                    let r = self.rank@[p as int] - 1;
                    self.rank@ = self.rank@.push(r);
                    self.root@ = self.root@.push(self.root@[p as int]);
                    if r < self.floor@ {
                        self.floor@ = r;
                    }
                }
            },
            None => {
                proof {
                    self.rank@ = self.rank@.push(0);
                    self.root@ = self.root@.push(index as int);
                    if 0 < self.floor@ {
                        self.floor@ = 0;
                    }
                    if self.ceil@ < 0 {
                        self.ceil@ = 0;
                    }
                }
            },
        }
        self.parents.push(parent);
        self.children.push(Vec::new());
        let count = self.parents.len();
        proof {
            assert(count == index + 1);
            assert forall|i: int| 0 <= i < self.node_count() implies #[trigger] self.node_wf(i) by {
                if i < index {
                    assert(old(self).node_wf(i));
                    assert(self.parent_of(i) == old(self).parent_of(i));
                    match self.parent_of(i) {
                        Some(q) => {
                            assert(old(self).children_of(q as int).contains(i as usize));
                            if parent == Some(q) {
                                Self::lemma_push_contains(old(self).children_of(q as int), index, i as usize);
                            }
                            assert(self.children_of(q as int).contains(i as usize));
                        },
                        None => {},
                    }
                    let cs = self.children_of(i);
                    assert forall|k: int| 0 <= k < cs.len() implies {
                        &&& #[trigger] cs[k] < self.node_count()
                        &&& self.parent_of(cs[k] as int) == Some(i as usize)
                    } by {
                        if k < old(self).children_of(i).len() {
                            assert(cs[k] == old(self).children_of(i)[k]);
                        }
                    }
                    assert forall|k1: int, k2: int|
                        0 <= k1 < k2 < cs.len() implies #[trigger] cs[k1] != #[trigger] cs[k2] by {
                        let ocs = old(self).children_of(i);
                        if k2 < ocs.len() {
                            assert(cs[k1] == ocs[k1] && cs[k2] == ocs[k2]);
                        } else {
                            assert(cs[k1] == ocs[k1]);
                            assert(ocs.contains(cs[k1]));
                        }
                    }
                } else {
                    assert(i == index);
                    match parent {
                        Some(p) => {
                            assert(old(self).node_wf(p as int));
                            assert(self.children_of(p as int).last() == index);
                        },
                        None => {},
                    }
                }
            }
        }
        index
    }

    proof fn lemma_push_contains(s: Seq<usize>, x: usize, y: usize)
        requires
            s.contains(y),
        ensures
            s.push(x).contains(y),
    {
        let k = choose|k: int| 0 <= k < s.len() && s[k] == y;
        assert(s.push(x)[k] == y);
    }

    proof fn lemma_reparent_node(&self, old_tree: FlowTree, child: usize, parent: usize, delta: int, i: int)
        requires
            old_tree.wf(),
            child < old_tree.node_count(),
            parent < old_tree.node_count(),
            old_tree.parent_of(child as int) is None,
            old_tree.tree_root(parent as int) != child,
            !old_tree.children_of(parent as int).contains(child),
            delta <= 0,
            old_tree.rank@[child as int] + delta < old_tree.rank@[parent as int],
            self.parents@ == old_tree.parents@.update(child as int, Some(parent)),
            self.children@.len() == old_tree.children@.len(),
            forall|j: int| 0 <= j < self.children@.len() ==> #[trigger] self.children_of(j) == if j == parent {
                old_tree.children_of(j).push(child)
            } else {
                old_tree.children_of(j)
            },
            self.rank@.len() == old_tree.rank@.len(),
            self.root@.len() == old_tree.root@.len(),
            forall|j: int| 0 <= j < self.rank@.len() ==> #[trigger] self.rank@[j] == if old_tree.root@[j] == child as int {
                old_tree.rank@[j] + delta
            } else {
                old_tree.rank@[j]
            },
            forall|j: int| 0 <= j < self.root@.len() ==> #[trigger] self.root@[j] == if old_tree.root@[j] == child as int {
                old_tree.root@[parent as int]
            } else {
                old_tree.root@[j]
            },
            self.floor@ == old_tree.floor@ + delta,
            self.ceil@ == old_tree.ceil@,
            0 <= i < self.node_count(),
        ensures
            self.node_wf(i),
    {
        let r = child as int;
        let p = parent as int;
        assert(old_tree.node_wf(i));
        assert(old_tree.node_wf(r));
        assert(old_tree.node_wf(p));
        assert(old_tree.root@[r] == r);
        if i == r {
            assert(self.parent_of(i) == Some(parent));
            assert(self.children_of(p).last() == child);
        } else {
            assert(self.parent_of(i) == old_tree.parent_of(i));
            match self.parent_of(i) {
                Some(q) => {
                    assert(old_tree.node_wf(q as int));
                    Self::lemma_push_contains(old_tree.children_of(q as int), child, i as usize);
                    assert(self.children_of(q as int).contains(i as usize));
                },
                None => {
                    assert(old_tree.root@[i] == i);
                },
            }
        }
        let cs = self.children_of(i);
        let ocs = old_tree.children_of(i);
        assert forall|k: int| 0 <= k < cs.len() implies {
            &&& #[trigger] cs[k] < self.node_count()
            &&& self.parent_of(cs[k] as int) == Some(i as usize)
        } by {
            if k < ocs.len() {
                assert(cs[k] == ocs[k]);
                assert(old_tree.parent_of(ocs[k] as int) == Some(i as usize));
            }
        }
        assert forall|k1: int, k2: int|
            0 <= k1 < k2 < cs.len() implies #[trigger] cs[k1] != #[trigger] cs[k2] by {
            if k2 < ocs.len() {
                assert(cs[k1] == ocs[k1] && cs[k2] == ocs[k2]);
            } else {
                assert(cs[k1] == ocs[k1]);
                assert(old_tree.parent_of(ocs[k1] as int) == Some(i as usize));
            }
        }
    }

    /// Attaches a flow subtree root as the last flow child of `parent` (used for the
    /// virtual root container). The parent must not lie inside the child's own subtree.
    pub fn reparent(&mut self, child: usize, parent: usize)
        requires
            old(self).wf(),
            child < old(self).node_count(),
            parent < old(self).node_count(),
            old(self).parent_of(child as int) is None,
            old(self).tree_root(parent as int) != child,
        ensures
            final(self).wf(),
            final(self).node_count() == old(self).node_count(),
            final(self).parent_of(child as int) == Some(parent),
            forall|j: int|
                0 <= j < old(self).node_count() ==> {
                    &&& j != child ==> #[trigger] final(self).parent_of(j) == old(self).parent_of(j)
                    &&& final(self).children_of(j) == if j == parent {
                        old(self).children_of(j).push(child)
                    } else {
                        old(self).children_of(j)
                    }
                    &&& final(self).tree_root(j) == if old(self).tree_root(j) == child {
                        old(self).tree_root(parent as int)
                    } else {
                        old(self).tree_root(j)
                    }
                },
    {
        proof {
            assert(old(self).node_wf(child as int));
            assert(old(self).node_wf(parent as int));
            assert(!old(self).children_of(parent as int).contains(child)) by {
                if old(self).children_of(parent as int).contains(child) {
                    let k = choose|k: int|
                        0 <= k < old(self).children_of(parent as int).len()
                            && old(self).children_of(parent as int)[k] == child;
                    assert(old(self).children_of(parent as int)[k] == child);
                }
            }
        }
        self.parents[child] = Some(parent);
        self.children[parent].push(child);
        proof {
            let n = self.parents@.len();
            let r = child as int;
            let p = parent as int;
            let rank0 = self.rank@;
            let root0 = self.root@;
            let delta: int = if rank0[r] < rank0[p] {
                0
            } else {
                rank0[p] - 1 - rank0[r]
            };
            self.rank@ = Seq::new(
                n,
                |j: int|
                    if root0[j] == r {
                        rank0[j] + delta
                    } else {
                        rank0[j]
                    },
            );
            self.root@ = Seq::new(
                n,
                |j: int|
                    if root0[j] == r {
                        root0[p]
                    } else {
                        root0[j]
                    },
            );
            self.floor@ = self.floor@ + delta;
            assert forall|i: int| 0 <= i < self.node_count() implies #[trigger] self.node_wf(i) by {
                self.lemma_reparent_node(*old(self), child, parent, delta, i);
            }
        }
    }

    /// Returns the root of the flow subtree that a node belongs to.
    pub fn root_of(&self, index: usize) -> (r: usize)
        requires
            self.wf(),
            index < self.node_count(),
        ensures
            r == self.tree_root(index as int),
            r < self.node_count(),
            self.parent_of(r as int) is None,
    {
        let mut i = index;
        while self.parents[i].is_some()
            invariant
                self.wf(),
                i < self.node_count(),
                self.tree_root(i as int) == self.tree_root(index as int),
            decreases self.ceil@ - self.rank_of(i as int),
        {
            proof {
                assert(self.node_wf(i as int));
            }
            i = self.parents[i].unwrap();
            proof {
                assert(self.node_wf(i as int));
            }
        }
        proof {
            assert(self.node_wf(i as int));
        }
        i
    }

    #[verifier::spinoff_prover]
    proof fn lemma_subtree_step(&self, s0: Seq<usize>, i: usize)
        requires
            self.wf(),
            i < self.node_count(),
        ensures
            self.pre_list(s0.push(i).reverse(), self.fuel()) == seq![i] + self.pre_list(
                (s0 + self.children_of(i as int).reverse()).reverse(),
                self.fuel(),
            ),
    {
        let f = self.fuel();
        let cs = self.children_of(i as int);
        assert(self.node_wf(i as int));
        assert forall|k: int| 0 <= k < cs.len() implies {
            &&& #[trigger] cs[k] < self.node_count()
            &&& (f - 1) as nat > self.rank_of(cs[k] as int) - self.floor@
            &&& f > self.rank_of(cs[k] as int) - self.floor@
        } by {
            assert(self.parent_of(cs[k] as int) == Some(i));
            assert(self.node_wf(cs[k] as int));
        }
        self.lemma_pre_list_fuel(cs, (f - 1) as nat, f);
        let sp = s0.push(i).reverse();
        assert(sp[0] == i);
        assert(sp.drop_first() =~= s0.reverse());
        assert((s0 + cs.reverse()).reverse() =~= cs + s0.reverse());
        self.lemma_pre_list_concat(cs, s0.reverse(), f);
        assert(f >= 1);
        assert(self.pre(i as int, f) == seq![i] + self.pre_list(cs, (f - 1) as nat));
        assert(self.pre_list(sp, f) == self.pre(i as int, f) + self.pre_list(s0.reverse(), f));
        assert(self.pre_list(sp, f) =~= seq![i] + (self.pre_list(cs, f) + self.pre_list(s0.reverse(), f)));
    }

    /// Lists all node indices of the subtree rooted at `index` in preorder: the node
    /// itself, then the subtrees of its children in order.
    pub fn subtree(&self, index: usize) -> (order: Vec<usize>)
        requires
            self.wf(),
            index < self.node_count(),
        ensures
            order@ == self.preorder(index as int),
    {
        let mut order: Vec<usize> = Vec::new();
        let mut stack: Vec<usize> = Vec::new();
        stack.push(index);
        proof {
            let f = self.fuel();
            let one = stack@.reverse();
            assert(one.len() == 1 && one[0] == index);
            assert(one.drop_first() =~= Seq::<usize>::empty());
            assert(self.pre_list(one.drop_first(), f) == Seq::<usize>::empty());
            assert(self.pre_list(one, f) =~= self.pre(index as int, f));
            assert(order@ + self.pre_list(stack@.reverse(), f) =~= self.preorder(index as int));
        }
        while stack.len() > 0
            invariant
                self.wf(),
                forall|k: int| 0 <= k < stack@.len() ==> #[trigger] stack@[k] < self.node_count(),
                order@ + self.pre_list(stack@.reverse(), self.fuel()) == self.preorder(index as int),
            decreases self.preorder(index as int).len() - order@.len(),
        {
            let ghost s_before = stack@;
            let i = stack.pop().unwrap();
            let ghost s0 = stack@;
            let ghost o0 = order@;
            proof {
                assert(s_before =~= s0.push(i));
                assert(s_before[s_before.len() - 1] < self.node_count());
                self.lemma_subtree_step(s0, i);
            }
            order.push(i);
            let cs = &self.children[i];
            let mut k = cs.len();
            while k > 0
                invariant
                    cs@ == self.children_of(i as int),
                    k <= cs@.len(),
                    stack@ == s0 + cs@.subrange(k as int, cs@.len() as int).reverse(),
                decreases k,
            {
                k = k - 1;
                stack.push(cs[k]);
                proof {
                    assert(cs@.subrange(k as int, cs@.len() as int).reverse() =~= cs@.subrange(
                        k + 1,
                        cs@.len() as int,
                    ).reverse().push(cs@[k as int]));
                }
            }
            proof {
                let cs = self.children_of(i as int);
                assert(cs.subrange(0, cs.len() as int) =~= cs);
                assert(stack@ == s0 + cs.reverse());
                assert(order@ =~= o0 + seq![i]);
                assert(o0 + self.pre_list(s_before.reverse(), self.fuel()) == self.preorder(index as int));
                assert(order@ + self.pre_list(stack@.reverse(), self.fuel()) =~= self.preorder(index as int));
                assert(self.node_wf(i as int));
                assert forall|j: int| 0 <= j < stack@.len() implies #[trigger] stack@[j]
                    < self.node_count() by {
                    if j >= s0.len() {
                        assert(stack@[j] == cs.reverse()[j - s0.len()]);
                    } else {
                        assert(stack@[j] == s_before[j]);
                    }
                }
            }
        }
        proof {
            assert(stack@.reverse() =~= Seq::<usize>::empty());
            assert(order@ =~= order@ + Seq::<usize>::empty());
        }
        order
    }
}

} // verus!
