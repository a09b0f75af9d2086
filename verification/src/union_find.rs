//! Disjoint sets over `0..n` with union by rank and path compression.
//!
//! The abstract state of a [`UnionFind`] is a [`DisjointSets`] value: for
//! every element its representative and its rank. All contracts are stated
//! over that value.

use vstd::prelude::*;
use vstd::set_lib::*;

verus! {

/// The abstract state of a union-find forest over the elements `0..len()`.
pub struct DisjointSets {
    /// `rep[i]` is the representative of the set that holds `i`.
    pub rep: Seq<usize>,
    /// `rank[i]` is the rank of `i`; it decides which representative
    /// survives a union.
    pub rank: Seq<usize>,
}

impl DisjointSets {
    /// Number of elements.
    pub open spec fn len(self) -> nat {
        self.rep.len()
    }

    /// `n` singletons, every rank zero.
    pub open spec fn discrete(n: nat) -> DisjointSets {
        DisjointSets { rep: Seq::new(n, |i: int| i as usize), rank: Seq::new(n, |i: int| 0usize) }
    }

    /// Every representative is in range and represents itself.
    pub open spec fn valid(self) -> bool {
        &&& self.rank.len() == self.rep.len()
        &&& forall|i: int|
            0 <= i < self.rep.len() ==> {
                &&& (#[trigger] self.rep[i]) < self.rep.len()
                &&& self.rep[self.rep[i] as int] == self.rep[i]
            }
    }

    /// `x` and `y` lie in one set.
    pub open spec fn same(self, x: int, y: int) -> bool {
        self.rep[x] == self.rep[y]
    }

    /// The set that holds `x`.
    pub open spec fn class(self, x: int) -> Set<int> {
        Set::new(|i: int| 0 <= i < self.rep.len() && self.rep[i] == self.rep[x])
    }

    /// The representative that survives when the sets of `x` and `y` are
    /// merged: the one of greater rank, the one of `x` on a tie.
    pub open spec fn winner(self, x: int, y: int) -> usize {
        let rx = self.rep[x];
        let ry = self.rep[y];
        if self.rank[rx as int] < self.rank[ry as int] {
            ry
        } else {
            rx
        }
    }

    /// The state after the sets of `x` and `y` have been merged.
    pub open spec fn united(self, x: int, y: int) -> DisjointSets {
        let rx = self.rep[x];
        let ry = self.rep[y];
        if rx == ry {
            self
        } else {
            let w = self.winner(x, y);
            DisjointSets {
                rep: Seq::new(
                    self.rep.len(),
                    |i: int|
                        if self.rep[i] == rx || self.rep[i] == ry {
                            w
                        } else {
                            self.rep[i]
                        },
                ),
                rank: if self.rank[rx as int] == self.rank[ry as int] {
                    self.rank.update(rx as int, (self.rank[rx as int] + 1) as usize)
                } else {
                    self.rank
                },
            }
        }
    }

    /// The elements below `k` whose representative is `r`, in increasing
    /// order.
    pub open spec fn members(self, r: int, k: int) -> Seq<usize>
        decreases k,
    {
        if k <= 0 {
            Seq::empty()
        } else if self.rep[k - 1] == r {
            self.members(r, k - 1).push((k - 1) as usize)
        } else {
            self.members(r, k - 1)
        }
    }

    /// The sets whose representative lies below `r`, in the order of
    /// their representatives, each with its elements in increasing
    /// order.
    pub open spec fn classes_upto(self, r: int) -> Seq<Seq<usize>>
        decreases r,
    {
        if r <= 0 {
            Seq::empty()
        } else if self.members(r - 1, self.rep.len() as int).len() > 0 {
            self.classes_upto(r - 1).push(self.members(r - 1, self.rep.len() as int))
        } else {
            self.classes_upto(r - 1)
        }
    }

    /// All the sets, in the order of their representatives.
    pub open spec fn classes(self) -> Seq<Seq<usize>> {
        self.classes_upto(self.rep.len() as int)
    }

    /// Merging keeps the state valid, and joins exactly the two sets: two
    /// elements lie in one set afterwards if they did before, or if one
    /// lay with `x` and the other with `y`.
    pub proof fn lemma_united(self, x: int, y: int)
        requires
            self.valid(),
            0 <= x < self.len(),
            0 <= y < self.len(),
        ensures
            self.united(x, y).valid(),
            self.united(x, y).len() == self.len(),
            forall|a: int, b: int|
                0 <= a < self.len() && 0 <= b < self.len() ==> (#[trigger] self.united(x, y).same(
                    a,
                    b,
                ) <==> self.same(a, b) || (self.same(a, x) && self.same(y, b)) || (self.same(a, y)
                    && self.same(x, b))),
    {
        let d = self.united(x, y);
        assert(self.rep[self.rep[x] as int] == self.rep[x]);
        assert(self.rep[self.rep[y] as int] == self.rep[y]);
        assert forall|i: int| 0 <= i < d.rep.len() implies {
            &&& (#[trigger] d.rep[i]) < d.rep.len()
            &&& d.rep[d.rep[i] as int] == d.rep[i]
        } by {
            assert(self.rep[self.rep[i] as int] == self.rep[i]);
        }
    }
}

/// The lists that a list of vectors holds.
pub open spec fn lists_of(sets: Seq<Vec<usize>>) -> Seq<Seq<usize>> {
    Seq::new(sets.len(), |i: int| sets[i]@)
}

/// Parent links stay in range, ranks stay below the length, and the rank
/// grows strictly along every link that is not a self-loop.
spec fn linked(par: Seq<usize>, rank: Seq<usize>) -> bool {
    &&& rank.len() == par.len()
    &&& forall|i: int| 0 <= i < par.len() ==> (#[trigger] par[i]) < par.len()
    &&& forall|i: int| 0 <= i < par.len() ==> (#[trigger] rank[i]) < par.len()
    &&& forall|i: int|
        #![trigger par[i]]
        0 <= i < par.len() && par[i] != i ==> rank[i] < rank[par[i] as int]
}

/// The root reached from `i` by following parent links.
spec fn root_of(par: Seq<usize>, rank: Seq<usize>, i: int) -> int
    decreases par.len() - rank[i],
    when linked(par, rank) && 0 <= i < par.len()
{
    if par[i] == i {
        i
    } else {
        root_of(par, rank, par[i] as int)
    }
}

/// The elements whose root is `r`.
spec fn tree(par: Seq<usize>, rank: Seq<usize>, r: int) -> Set<int> {
    Set::new(|i: int| 0 <= i < par.len() && root_of(par, rank, i) == r)
}

proof fn lemma_root(par: Seq<usize>, rank: Seq<usize>, i: int)
    requires
        linked(par, rank),
        0 <= i < par.len(),
    ensures
        0 <= root_of(par, rank, i) < par.len(),
        par[root_of(par, rank, i)] == root_of(par, rank, i),
        rank[i] <= rank[root_of(par, rank, i)],
        par[i] != i ==> rank[i] < rank[root_of(par, rank, i)],
        par[i] == i ==> root_of(par, rank, i) == i,
    decreases par.len() - rank[i],
{
    if par[i] != i {
        lemma_root(par, rank, par[i] as int);
    }
}

proof fn lemma_tree_bounded(par: Seq<usize>, rank: Seq<usize>, r: int)
    ensures
        tree(par, rank, r).finite(),
        tree(par, rank, r).len() <= par.len(),
{
    lemma_int_range(0, par.len() as int);
    lemma_len_subset(tree(par, rank, r), set_int_range(0, par.len() as int));
}

/// Redirecting a non-root `x` to its own root keeps the links well formed.
proof fn lemma_compress_linked(par: Seq<usize>, rank: Seq<usize>, x: int)
    requires
        linked(par, rank),
        0 <= x < par.len(),
        par[x] != x,
    ensures
        linked(par.update(x, root_of(par, rank, x) as usize), rank),
{
    lemma_root(par, rank, x);
}

/// Redirecting a non-root `x` to its own root changes no root.
proof fn lemma_compress_roots(par: Seq<usize>, rank: Seq<usize>, x: int, i: int)
    requires
        linked(par, rank),
        0 <= x < par.len(),
        0 <= i < par.len(),
        par[x] != x,
    ensures
        root_of(par.update(x, root_of(par, rank, x) as usize), rank, i) == root_of(par, rank, i),
    decreases par.len() - rank[i],
{
    let r = root_of(par, rank, x);
    let par2 = par.update(x, r as usize);
    lemma_root(par, rank, x);
    lemma_compress_linked(par, rank, x);
    if i == x {
        lemma_root(par2, rank, r);
    } else if par[i] != i {
        lemma_compress_roots(par, rank, x, par[i] as int);
    }
}

/// Hanging the root `l` below the root `w` sends the tree of `l` to `w`
/// and leaves every other root alone.
proof fn lemma_link_roots(
    par: Seq<usize>,
    rank: Seq<usize>,
    rank2: Seq<usize>,
    l: int,
    w: int,
    i: int,
)
    requires
        linked(par, rank),
        linked(par.update(l, w as usize), rank2),
        0 <= l < par.len(),
        0 <= w < par.len(),
        0 <= i < par.len(),
        par[l] == l,
        par[w] == w,
        l != w,
    ensures
        root_of(par.update(l, w as usize), rank2, i) == (if root_of(par, rank, i) == l {
            w
        } else {
            root_of(par, rank, i)
        }),
    decreases par.len() - rank[i],
{
    let par2 = par.update(l, w as usize);
    if i == l {
        lemma_root(par2, rank2, w);
    } else if par[i] != i {
        lemma_link_roots(par, rank, rank2, l, w, par[i] as int);
    }
}

/// A union-find forest over `0..n`.
pub struct UnionFind {
    par: Vec<usize>,
    rank: Vec<usize>,
    count: Vec<usize>,
}

impl View for UnionFind {
    type V = DisjointSets;

    closed spec fn view(&self) -> DisjointSets {
        DisjointSets {
            rep: Seq::new(self.par@.len(), |i: int| root_of(self.par@, self.rank@, i) as usize),
            rank: self.rank@,
        }
    }
}

impl UnionFind {
    /// The forest is acyclic and every root knows the size of its tree.
    pub closed spec fn wf(&self) -> bool {
        &&& linked(self.par@, self.rank@)
        &&& self.count@.len() == self.par@.len()
        &&& forall|r: int|
            #![trigger self.count@[r]]
            0 <= r < self.par@.len() && self.par@[r] == r ==> {
                &&& self.count@[r] == tree(self.par@, self.rank@, r).len()
                &&& self.rank@[r] < self.count@[r]
            }
    }

    /// A well-formed forest has a valid abstract state.
    pub proof fn lemma_view_valid(&self)
        requires
            self.wf(),
        ensures
            self@.valid(),
    {
        assert forall|i: int| 0 <= i < self@.rep.len() implies {
            &&& (#[trigger] self@.rep[i]) < self@.rep.len()
            &&& self@.rep[self@.rep[i] as int] == self@.rep[i]
        } by {
            lemma_root(self.par@, self.rank@, i);
            lemma_root(self.par@, self.rank@, root_of(self.par@, self.rank@, i));
        }
    }

    proof fn lemma_class_is_tree(&self, x: int)
        requires
            self.wf(),
            0 <= x < self.par@.len(),
        ensures
            self@.class(x) == tree(self.par@, self.rank@, root_of(self.par@, self.rank@, x)),
    {
        let r = root_of(self.par@, self.rank@, x);
        lemma_root(self.par@, self.rank@, x);
        assert forall|i: int| self@.class(x).contains(i) <==> tree(
            self.par@,
            self.rank@,
            r,
        ).contains(i) by {
            if 0 <= i < self.par@.len() {
                lemma_root(self.par@, self.rank@, i);
            }
        }
        assert(self@.class(x) =~= tree(self.par@, self.rank@, r));
    }

    /// Creates `n` singletons.
    pub fn new(n: usize) -> (uf: Self)
        ensures
            uf.wf(),
            uf@ == DisjointSets::discrete(n as nat),
    {
        let mut par: Vec<usize> = Vec::new();
        let mut rank: Vec<usize> = Vec::new();
        let mut count: Vec<usize> = Vec::new();
        let mut i: usize = 0;
        while i < n
            invariant
                i <= n,
                par@.len() == i,
                rank@.len() == i,
                count@.len() == i,
                forall|j: int| 0 <= j < i ==> par@[j] == j,
                forall|j: int| 0 <= j < i ==> rank@[j] == 0,
                forall|j: int| 0 <= j < i ==> count@[j] == 1,
            decreases n - i,
        {
            par.push(i);
            rank.push(0);
            count.push(1);
            i += 1;
        }
        let uf = UnionFind { par, rank, count };
        proof {
            assert(linked(uf.par@, uf.rank@));
            assert forall|r: int| 0 <= r < uf.par@.len() implies tree(uf.par@, uf.rank@, r)
                == set![r] by {
                assert forall|j: int| tree(uf.par@, uf.rank@, r).contains(j) <==> j == r by {
                    if 0 <= j < uf.par@.len() {
                        lemma_root(uf.par@, uf.rank@, j);
                    }
                }
                assert(tree(uf.par@, uf.rank@, r) =~= set![r]);
            }
            assert forall|r: int| 0 <= r < uf.par@.len() implies uf.count@[r] == tree(
                uf.par@,
                uf.rank@,
                r,
            ).len() by {
                assert(tree(uf.par@, uf.rank@, r) == set![r]);
                assert(set![r].len() == 1);
            }
            assert forall|r: int| 0 <= r < uf.par@.len() implies root_of(uf.par@, uf.rank@, r)
                == r by {
                lemma_root(uf.par@, uf.rank@, r);
            }
            assert(uf@.rep =~= DisjointSets::discrete(n as nat).rep);
            assert(uf@.rank =~= DisjointSets::discrete(n as nat).rank);
        }
        uf
    }

    /// Returns the representative of the set that holds `x`, and shortens
    /// the path from `x` to it. The abstract state does not change.
    pub fn find(&mut self, x: usize) -> (r: usize)
        requires
            old(self).wf(),
            x < old(self)@.len(),
        ensures
            final(self).wf(),
            final(self)@ == old(self)@,
            r == old(self)@.rep[x as int],
    {
        if self.par[x] == x {
            proof {
                lemma_root(self.par@, self.rank@, x as int);
            }
            x
        } else {
            let mut represent: usize = self.par[x];
            proof {
                lemma_root(self.par@, self.rank@, x as int);
            }
            while self.par[represent] != represent
                invariant
                    linked(self.par@, self.rank@),
                    represent < self.par@.len(),
                    x < self.par@.len(),
                    root_of(self.par@, self.rank@, represent as int) == root_of(
                        self.par@,
                        self.rank@,
                        x as int,
                    ),
                decreases self.par@.len() - self.rank@[represent as int],
            {
                represent = self.par[represent];
            }
            proof {
                lemma_root(self.par@, self.rank@, represent as int);
                let par = self.par@;
                let rank = self.rank@;
                lemma_compress_linked(par, rank, x as int);
                let par2 = par.update(x as int, represent);
                assert forall|i: int| 0 <= i < par.len() implies root_of(par2, rank, i) == root_of(
                    par,
                    rank,
                    i,
                ) by {
                    lemma_compress_roots(par, rank, x as int, i);
                }
                assert forall|r: int| 0 <= r < par.len() implies tree(par2, rank, r) == tree(
                    par,
                    rank,
                    r,
                ) by {
                    assert(tree(par2, rank, r) =~= tree(par, rank, r));
                }
            }
            let ghost before = self@;
            self.par.set(x, represent);
            proof {
                assert(self@.rep =~= before.rep);
            }
            represent
        }
    }

    /// Merges the sets of `x` and `y`. Returns whether they were distinct.
    pub fn unite(&mut self, x: usize, y: usize) -> (merged: bool)
        requires
            old(self).wf(),
            x < old(self)@.len(),
            y < old(self)@.len(),
        ensures
            final(self).wf(),
            final(self)@ == old(self)@.united(x as int, y as int),
            merged == !old(self)@.same(x as int, y as int),
    {
        let x_par = self.find(x);
        let y_par = self.find(y);
        let n = self.par.len();
        if x_par != y_par {
            let ghost par = self.par@;
            let ghost rank = self.rank@;
            let ghost before = self@;
            proof {
                lemma_root(par, rank, x as int);
                lemma_root(par, rank, y as int);
                assert(x_par == root_of(par, rank, x as int));
                assert(y_par == root_of(par, rank, y as int));
                assert(self.count@[x_par as int] == tree(par, rank, x_par as int).len());
                assert(self.count@[y_par as int] == tree(par, rank, y_par as int).len());
                lemma_tree_bounded(par, rank, x_par as int);
                lemma_tree_bounded(par, rank, y_par as int);
                assert(tree(par, rank, x_par as int).disjoint(tree(par, rank, y_par as int)));
                lemma_set_disjoint_lens(
                    tree(par, rank, x_par as int),
                    tree(par, rank, y_par as int),
                );
                lemma_int_range(0, par.len() as int);
                assert((tree(par, rank, x_par as int) + tree(par, rank, y_par as int)).subset_of(
                    set_int_range(0, par.len() as int),
                ));
                lemma_len_subset(
                    tree(par, rank, x_par as int) + tree(par, rank, y_par as int),
                    set_int_range(0, par.len() as int),
                );
                assert(self.count@[x_par as int] + self.count@[y_par as int] <= par.len());
            }
            let ghost l: int;
            let ghost w: int;
            if self.rank[x_par] < self.rank[y_par] {
                self.par.set(x_par, y_par);
                let c = self.count[y_par] + self.count[x_par];
                self.count.set(y_par, c);
                proof {
                    l = x_par as int;
                    w = y_par as int;
                }
            } else {
                self.par.set(y_par, x_par);
                let c = self.count[x_par] + self.count[y_par];
                self.count.set(x_par, c);
                if self.rank[x_par] == self.rank[y_par] {
                    let k = self.rank[x_par] + 1;
                    self.rank.set(x_par, k);
                }
                proof {
                    l = y_par as int;
                    w = x_par as int;
                }
            }
            proof {
                let par2 = self.par@;
                let rank2 = self.rank@;
                assert(par2 == par.update(l, w as usize));
                assert(linked(par2, rank2));
                assert forall|i: int| 0 <= i < par.len() implies 0 <= #[trigger] root_of(
                    par,
                    rank,
                    i,
                ) < par.len() && root_of(par2, rank2, i) == (if root_of(par, rank, i) == l {
                    w
                } else {
                    root_of(par, rank, i)
                }) by {
                    lemma_root(par, rank, i);
                    lemma_link_roots(par, rank, rank2, l, w, i);
                }
                assert(tree(par2, rank2, w) =~= tree(par, rank, l) + tree(par, rank, w));
                assert(tree(par2, rank2, w) =~= tree(par, rank, x_par as int) + tree(
                    par,
                    rank,
                    y_par as int,
                ));
                assert forall|r: int|
                    0 <= r < par.len() && par2[r] == r && r != w implies tree(par2, rank2, r)
                    == tree(par, rank, r) by {
                    assert(tree(par2, rank2, r) =~= tree(par, rank, r));
                }
                let after = before.united(x as int, y as int);
                assert(before.rep[x as int] == x_par);
                assert(before.rep[y as int] == y_par);
                assert(after.rep.len() == par.len());
                assert forall|i: int| 0 <= i < par.len() implies self@.rep[i] == after.rep[i] by {
                    lemma_root(par, rank, i);
                    lemma_link_roots(par, rank, rank2, l, w, i);
                    assert(before.rep[i] == root_of(par, rank, i));
                    assert(self@.rep[i] == root_of(par2, rank2, i));
                }
                assert(self@.rep =~= after.rep);
                assert(self@.rank =~= after.rank);
            }
        }
        x_par != y_par
    }

    /// Whether `x` and `y` lie in one set.
    pub fn same(&mut self, x: usize, y: usize) -> (r: bool)
        requires
            old(self).wf(),
            x < old(self)@.len(),
            y < old(self)@.len(),
        ensures
            final(self).wf(),
            final(self)@ == old(self)@,
            r == old(self)@.same(x as int, y as int),
    {
        let a = self.find(x);
        let b = self.find(y);
        a == b
    }

    /// The sets as lists: in the order of their representatives, each
    /// with its elements in increasing order.
    pub fn to_vec(&mut self) -> (sets: Vec<Vec<usize>>)
        requires
            old(self).wf(),
        ensures
            final(self).wf(),
            final(self)@ == old(self)@,
            lists_of(sets@) == old(self)@.classes(),
    {
        let n = self.par.len();
        let ghost d = self@;
        let mut set: Vec<Vec<usize>> = Vec::new();
        let mut t: usize = 0;
        while t < n
            invariant
                t <= n,
                set@.len() == t,
                forall|r: int| 0 <= r < t ==> (#[trigger] set@[r])@ == Seq::<usize>::empty(),
            decreases n - t,
        {
            set.push(Vec::new());
            t += 1;
        }
        let mut i: usize = 0;
        while i < n
            invariant
                i <= n,
                n == d.len(),
                self.wf(),
                self@ == d,
                set@.len() == n,
                forall|r: int| 0 <= r < n ==> (#[trigger] set@[r])@ == d.members(r, i as int),
            decreases n - i,
        {
            let r = self.find(i);
            proof {
                self.lemma_view_valid();
            }
            let ghost before = set@;
            set[r].push(i);
            proof {
                assert forall|q: int| 0 <= q < n implies (#[trigger] set@[q])@ == d.members(
                    q,
                    i + 1,
                ) by {
                    if q != r {
                        assert(set@[q] == before[q]);
                    }
                }
            }
            i += 1;
        }
        let mut out: Vec<Vec<usize>> = Vec::new();
        proof {
            assert(lists_of(out@) =~= d.classes_upto(0));
        }
        for list in it: set
            invariant
                n == d.len(),
                it.seq().len() == n,
                forall|q: int| 0 <= q < n ==> (#[trigger] it.seq()[q])@ == d.members(q, n as int),
                lists_of(out@) == d.classes_upto(it.index()),
        {
            let ghost found = lists_of(out@);
            let ghost k = it.index();
            if list.len() > 0 {
                out.push(list);
                proof {
                    assert(lists_of(out@) =~= found.push(d.members(k, n as int)));
                }
            }
        }
        out
    }

    /// The number of elements in the set that holds `x`.
    pub fn count(&mut self, x: usize) -> (c: usize)
        requires
            old(self).wf(),
            x < old(self)@.len(),
        ensures
            final(self).wf(),
            final(self)@ == old(self)@,
            c == old(self)@.class(x as int).len(),
    {
        let x_par = self.find(x);
        proof {
            lemma_root(self.par@, self.rank@, x as int);
            self.lemma_class_is_tree(x as int);
        }
        self.count[x_par]
    }
}

} // verus!
