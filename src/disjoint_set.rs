//! Union-find over `0..n` with path compression and union by rank.

use vstd::prelude::*;

verus! {

struct Node {
    parent: usize,
    rank: usize,
}

pub struct DisjointSet {
    tree: Vec<Node>,
    /// The representative that `find` reaches from each element.
    roots: Ghost<Seq<int>>,
    /// A height bound: strictly smaller at a parent than at its child.
    dist: Ghost<Seq<nat>>,
    /// The representatives, one per set.
    classes: Ghost<Set<int>>,
    /// How many unions merged two sets so far.
    merges: Ghost<nat>,
}

impl View for DisjointSet {
    /// Each element's representative.
    type V = Seq<int>;

    closed spec fn view(&self) -> Seq<int> {
        self.roots@
    }
}

impl DisjointSet {
    pub closed spec fn wf(&self) -> bool {
        let n = self.tree@.len() as int;
        let t = self.tree@;
        let roots = self.roots@;
        let dist = self.dist@;
        &&& roots.len() == n
        &&& dist.len() == n
        &&& forall|x: int|
            0 <= x < n ==> {
                &&& #[trigger] t[x].parent < n
                &&& 0 <= roots[x] < n
                &&& t[roots[x]].parent == roots[x]
                &&& roots[t[x].parent as int] == roots[x]
                &&& t[x].parent == x ==> roots[x] == x && dist[x] == 0
                &&& t[x].parent != x ==> dist[t[x].parent as int] < dist[x]
                &&& t[x].rank <= self.merges@
                &&& self.classes@.contains(x) <==> t[x].parent == x
            }
        &&& forall|x: int| #[trigger] self.classes@.contains(x) ==> 0 <= x < n
        &&& self.classes@.finite()
        &&& self.merges@ + self.classes@.len() == n
    }

    /// An upper bound on the number of steps from `x` to its representative.
    pub closed spec fn height(&self, x: int) -> nat {
        self.dist@[x]
    }

    /// `a` and `b` are in the same set.
    pub open spec fn same(&self, a: int, b: int) -> bool {
        self@[a] == self@[b]
    }

    pub proof fn lemma_view_len(&self)
        requires
            self.wf(),
        ensures
            forall|x: int| 0 <= x < self@.len() ==> 0 <= #[trigger] self@[x] < self@.len() && self@[self@[x]] == self@[x],
    {
        assert forall|x: int| 0 <= x < self@.len() implies 0 <= #[trigger] self@[x] < self@.len() && self@[self@[x]] == self@[x] by {
            let r = self.roots@[x];
            assert(self.tree@[x].parent < self.tree@.len());
            assert(self.tree@[r].parent < self.tree@.len());
        }
    }

    /// `self` holds the sets of `prev` with the sets of `x` and `y` made one.
    pub open spec fn merged(&self, prev: &DisjointSet, x: int, y: int) -> bool {
        &&& self@.len() == prev@.len()
        &&& forall|a: int, b: int|
            0 <= a < prev@.len() && 0 <= b < prev@.len() ==> (#[trigger] self.same(a, b) <==> {
                ||| prev.same(a, b)
                ||| prev.same(a, x) && prev.same(b, y)
                ||| prev.same(a, y) && prev.same(b, x)
            })
    }

    /// `num_sets` singleton sets.
    pub fn new(num_sets: usize) -> (r: DisjointSet)
        ensures
            r.wf(),
            r@.len() == num_sets,
            forall|x: int| 0 <= x < num_sets ==> #[trigger] r@[x] == x,
    {
        let mut tree: Vec<Node> = Vec::with_capacity(num_sets);
        let mut i: usize = 0;
        while i < num_sets
            invariant
                i <= num_sets,
                tree@.len() == i,
                forall|x: int| 0 <= x < i ==> (#[trigger] tree@[x]).parent == x && tree@[x].rank == 0,
            decreases num_sets - i,
        {
            tree.push(Node { parent: i, rank: 0 });
            i = i + 1;
        }
        let ghost classes = Set::new(|x: int| 0 <= x < num_sets);
        proof {
            assert(classes =~= vstd::set_lib::set_int_range(0, num_sets as int));
            vstd::set_lib::lemma_int_range(0, num_sets as int);
        }
        let r = DisjointSet {
            tree,
            roots: Ghost(Seq::new(num_sets as nat, |x: int| x)),
            dist: Ghost(Seq::new(num_sets as nat, |x: int| 0nat)),
            classes: Ghost(classes),
            merges: Ghost(0),
        };
        r
    }

    /// The representative of `x`'s set. Every node on the way is re-pointed
    /// at the representative; the sets do not change.
    pub fn find(&mut self, x: usize) -> (r: usize)
        requires
            old(self).wf(),
            x < old(self)@.len(),
        ensures
            final(self).wf(),
            final(self)@ == old(self)@,
            r == old(self)@[x as int],
        decreases old(self).height(x as int),
    {
        let current_parent = self.tree[x].parent;
        if current_parent != x {
            proof {
                assert(self.tree@[x as int].parent < self.tree@.len());
            }
            let root = self.find(current_parent);
            let ghost mid = self.tree@;
            proof {
                assert(mid[x as int].parent < mid.len());
                assert(mid[current_parent as int].parent < mid.len());
                assert(self.roots@[current_parent as int] == self.roots@[x as int]);
                assert(root != x);
            }
            let rank = self.tree[x].rank;
            self.tree.set(x, Node { parent: root, rank });
            proof {
                let t = self.tree@;
                assert(mid[root as int].parent == root);
                assert forall|y: int| 0 <= y < t.len() implies {
                    &&& #[trigger] t[y].parent < t.len()
                    &&& 0 <= self.roots@[y] < t.len()
                    &&& t[self.roots@[y]].parent == self.roots@[y]
                    &&& self.roots@[t[y].parent as int] == self.roots@[y]
                    &&& t[y].parent == y ==> self.roots@[y] == y && self.dist@[y] == 0
                    &&& t[y].parent != y ==> self.dist@[t[y].parent as int] < self.dist@[y]
                    &&& t[y].rank <= self.merges@
                    &&& self.classes@.contains(y) <==> t[y].parent == y
                } by {
                    assert(mid[y].parent < mid.len());
                    assert(mid[self.roots@[y]].parent < mid.len());
                }
            }
        }
        self.tree[x].parent
    }

    /// Merges the sets of `x` and `y`: the root of lower rank goes under the
    /// other, and a tie raises the surviving root's rank.
    pub fn union(&mut self, x: usize, y: usize)
        requires
            old(self).wf(),
            x < old(self)@.len(),
            y < old(self)@.len(),
        ensures
            final(self).wf(),
            final(self).merged(old(self), x as int, y as int),
    {
        let ghost s0 = self@;
        proof {
            assert(self.tree@[x as int].parent < self.tree@.len());
            assert(self.tree@[y as int].parent < self.tree@.len());
        }
        let x_root = self.find(x);
        let y_root = self.find(y);

        if x_root == y_root {
            return;
        }
        let (x_root, y_root) = if self.tree[x_root].rank < self.tree[y_root].rank {
            (y_root, x_root)
        } else {
            (x_root, y_root)
        };
        proof {
            assert(self.tree@[x_root as int].parent < self.tree@.len());
            assert(self.tree@[y_root as int].parent < self.tree@.len());
            assert(self.classes@.contains(x_root as int));
            assert(self.classes@.contains(y_root as int));
            vstd::set_lib::lemma_len_subset(
                set![x_root as int, y_root as int],
                self.classes@,
            );
            assert(set![x_root as int, y_root as int].len() == 2) by {
                assert(set![x_root as int, y_root as int] == set![x_root as int].insert(y_root as int));
            }
        }
        let ghost old_roots = self.roots@;
        let ghost m = self.tree@;
        let n_exec = self.tree.len();
        let ghost old_dist = self.dist@;
        let ghost yr = y_root as int;
        let ghost xr = x_root as int;
        let y_rank = self.tree[y_root].rank;
        self.tree.set(y_root, Node { parent: x_root, rank: y_rank });
        let x_rank = self.tree[x_root].rank;
        if x_rank == y_rank {
            self.tree.set(x_root, Node { parent: x_root, rank: x_rank + 1 });
        }
        proof {
            let n = self.tree@.len() as int;
            self.roots@ = Seq::new(n as nat, |z: int| if old_roots[z] == yr { xr } else { old_roots[z] });
            self.dist@ = Seq::new(n as nat, |z: int| if old_roots[z] == yr { old_dist[z] + 1 } else { old_dist[z] });
            self.classes@ = self.classes@.remove(yr);
            self.merges@ = self.merges@ + 1;
            let t = self.tree@;
            assert forall|z: int| 0 <= z < n implies {
                &&& #[trigger] t[z].parent < n
                &&& 0 <= self.roots@[z] < n
                &&& t[self.roots@[z]].parent == self.roots@[z]
                &&& self.roots@[t[z].parent as int] == self.roots@[z]
                &&& t[z].parent == z ==> self.roots@[z] == z && self.dist@[z] == 0
                &&& t[z].parent != z ==> self.dist@[t[z].parent as int] < self.dist@[z]
                &&& t[z].rank <= self.merges@
                &&& self.classes@.contains(z) <==> t[z].parent == z
            } by {
                assert(m[z].parent < n);
                assert(m[old_roots[z]].parent < n);
                assert(m[m[z].parent as int].parent < n);
                if z == yr {
                    assert(t[z].parent == xr);
                } else if z == xr {
                    assert(t[z].parent == xr);
                } else {
                    assert(t[z] == m[z]);
                }
            }
            assert forall|a: int, b: int|
                0 <= a < n && 0 <= b < n implies (#[trigger] self.same(a, b) <==> {
                    ||| s0[a] == s0[b]
                    ||| s0[a] == s0[x as int] && s0[b] == s0[y as int]
                    ||| s0[a] == s0[y as int] && s0[b] == s0[x as int]
                }) by {
                assert(old_roots[xr] == xr);
                assert(old_roots[yr] == yr);
            }
        }
    }
}

/// `a` and `b` are connected, directly or through other elements, by the
/// pairs: the equivalence relation the pairs generate, taken one pair at a time.
pub open spec fn joined(pairs: Seq<(int, int)>, a: int, b: int) -> bool
    decreases pairs.len(),
{
    if pairs.len() == 0 {
        a == b
    } else {
        let p = pairs.drop_last();
        let (x, y) = pairs.last();
        ||| joined(p, a, b)
        ||| joined(p, a, x) && joined(p, b, y)
        ||| joined(p, a, y) && joined(p, b, x)
    }
}

/// Starting from singletons and applying `union(pairs[k])` for each `k` in
/// turn, two elements end in the same set exactly when the pairs connect them.
pub proof fn lemma_unions_join(states: Seq<DisjointSet>, pairs: Seq<(int, int)>, a: int, b: int)
    requires
        states.len() == pairs.len() + 1,
        forall|x: int| 0 <= x < states[0]@.len() ==> #[trigger] states[0]@[x] == x,
        forall|k: int|
            0 <= k < pairs.len() ==> #[trigger] states[k + 1].merged(&states[k], pairs[k].0, pairs[k].1),
        forall|k: int|
            0 <= k < pairs.len() ==> 0 <= #[trigger] pairs[k].0 < states[0]@.len() && 0 <= pairs[k].1
                < states[0]@.len(),
        0 <= a < states[0]@.len(),
        0 <= b < states[0]@.len(),
    ensures
        states.last().same(a, b) <==> joined(pairs, a, b),
    decreases pairs.len(),
{
    if pairs.len() == 0 {
    } else {
        let k = pairs.len() - 1;
        let ps = pairs.drop_last();
        let ss = states.drop_last();
        assert forall|j: int| 0 <= j < ps.len() implies #[trigger] ss[j + 1].merged(&ss[j], ps[j].0, ps[j].1) by {
            assert(states[j + 1].merged(&states[j], pairs[j].0, pairs[j].1));
        }
        assert forall|j: int| 0 <= j <= k implies #[trigger] states[j]@.len() == states[0]@.len() by {
            lemma_lengths(states, pairs, j);
        }
        assert(states[k + 1].merged(&states[k], pairs[k].0, pairs[k].1));
        let (x, y) = pairs.last();
        assert(0 <= pairs[k].0 < states[0]@.len());
        assert forall|j: int| 0 <= j < ps.len() implies 0 <= #[trigger] ps[j].0 < ss[0]@.len() && 0 <= ps[j].1 < ss[0]@.len() by {
            assert(0 <= pairs[j].0 < states[0]@.len());
        }
        assert(ss[0] == states[0]);
        lemma_unions_join(ss, ps, a, b);
        lemma_unions_join(ss, ps, a, x);
        lemma_unions_join(ss, ps, b, y);
        lemma_unions_join(ss, ps, a, y);
        lemma_unions_join(ss, ps, b, x);
        assert(ss.last() == states[k]);
    }
}

proof fn lemma_lengths(states: Seq<DisjointSet>, pairs: Seq<(int, int)>, j: int)
    requires
        states.len() == pairs.len() + 1,
        forall|k: int|
            0 <= k < pairs.len() ==> #[trigger] states[k + 1].merged(&states[k], pairs[k].0, pairs[k].1),
        0 <= j < states.len(),
    ensures
        states[j]@.len() == states[0]@.len(),
    decreases j,
{
    if j > 0 {
        lemma_lengths(states, pairs, j - 1);
        let k = j - 1;
        assert(states[k + 1].merged(&states[k], pairs[k].0, pairs[k].1));
    }
}

} // verus!
