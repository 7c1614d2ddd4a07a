//! Union-find over corner indices, with path compression.

use vstd::prelude::*;

verus! {

/// The partition that results from joining the class of `i` into the class of `j`,
/// where `rep` names the class of each element.
pub open spec fn merged(rep: Seq<int>, i: int, j: int) -> Seq<int> {
    Seq::new(rep.len(), |k: int| if rep[k] == rep[i] { rep[j] } else { rep[k] })
}

/// `parent` is a forest whose roots are named by `rep`, with ranks below `max_rank`
/// that grow strictly along parent links.
pub open spec fn forest_ok(parent: Seq<usize>, rep: Seq<int>, rank: Seq<nat>, max_rank: nat) -> bool {
    let n = parent.len();
    &&& rep.len() == n
    &&& rank.len() == n
    &&& forall|k: int| 0 <= k < n ==> #[trigger] parent[k] < n
    &&& forall|k: int| 0 <= k < n ==> 0 <= #[trigger] rep[k] < n
    &&& forall|k: int| 0 <= k < n ==> parent[#[trigger] rep[k] as int] == rep[k]
    &&& forall|k: int| 0 <= k < n && #[trigger] parent[k] == k ==> rep[k] == k
    &&& forall|k: int| 0 <= k < n ==> rep[#[trigger] parent[k] as int] == rep[k]
    &&& forall|k: int| 0 <= k < n && #[trigger] parent[k] != k ==> rank[k] < rank[parent[k] as int]
    &&& forall|k: int| 0 <= k < n ==> #[trigger] rank[k] <= rank[rep[k]]
    &&& forall|k: int| 0 <= k < n ==> #[trigger] rank[k] <= max_rank
}

/// Linking the root `ri` under the root `rj` keeps the forest consistent.
proof fn lemma_link(parent: Seq<usize>, rep: Seq<int>, rank: Seq<nat>, max_rank: nat, i: int, j: int)
    requires
        forest_ok(parent, rep, rank, max_rank),
        0 <= i < parent.len(),
        0 <= j < parent.len(),
        rep[i] != rep[j],
    ensures
        forest_ok(
            parent.update(rep[i], rep[j] as usize),
            merged(rep, i, j),
            rank.update(rep[j], link_rank(rank, rep[i], rep[j])),
            if link_rank(rank, rep[i], rep[j]) > max_rank { link_rank(rank, rep[i], rep[j]) } else { max_rank },
        ),
{
    let ri = rep[i];
    let rj = rep[j];
    let n = parent.len();
    let p2 = parent.update(ri, rj as usize);
    let rep2 = merged(rep, i, j);
    let nr = link_rank(rank, ri, rj);
    let rank2 = rank.update(rj, nr);
    let max2 = if nr > max_rank { nr } else { max_rank };
    assert(parent[ri] == ri);
    assert(rep[ri] == ri);
    assert(parent[rj] == rj);
    assert(rep[rj] == rj);
    assert forall|k: int| 0 <= k < n implies {
        &&& p2[k] < n
        &&& 0 <= rep2[k] < n
        &&& p2[rep2[k] as int] == rep2[k]
        &&& (p2[k] == k ==> rep2[k] == k)
        &&& rep2[p2[k] as int] == rep2[k]
        &&& (p2[k] != k ==> rank2[k] < rank2[p2[k] as int])
        &&& rank2[k] <= rank2[rep2[k]]
        &&& rank2[k] <= max2
    } by {
        assert(rep[parent[k] as int] == rep[k]);
        assert(parent[rep[k] as int] == rep[k]);
        assert(rank[k] <= rank[rep[k]]);
        assert(rank[k] <= max_rank);
        assert(parent[k] != k ==> rank[k] < rank[parent[k] as int]);
        assert(parent[k] == k ==> rep[k] == k);
        assert(0 <= rep[k] < n);
        assert(parent[k] < n);
    }
}

/// The rank that the root `rj` takes when the root `ri` is linked under it.
pub open spec fn link_rank(rank: Seq<nat>, ri: int, rj: int) -> nat {
    if rank[rj] > rank[ri] { rank[rj] } else { (rank[ri] + 1) as nat }
}

/// A disjoint-set forest. Its view gives, for each element, the root of its class.
pub struct Dsu {
    parent: Vec<usize>,
    rep: Ghost<Seq<int>>,
    rank: Ghost<Seq<nat>>,
    max_rank: Ghost<nat>,
}

impl View for Dsu {
    type V = Seq<int>;

    closed spec fn view(&self) -> Seq<int> {
        self.rep@
    }
}

impl Dsu {
    /// The forest is consistent: following parents from any element reaches the root
    /// that the view names for it, and ranks grow strictly along parent links.
    pub closed spec fn wf(&self) -> bool {
        forest_ok(self.parent@, self.rep@, self.rank@, self.max_rank@)
    }

    /// Both forests carry the same ranks.
    pub closed spec fn same_ranks(&self, other: Dsu) -> bool {
        self.rank@ == other.rank@ && self.max_rank@ == other.max_rank@
    }

    /// How far the rank of `i` lies below the largest rank.
    pub closed spec fn height(&self, i: int) -> int {
        self.max_rank@ - self.rank@[i]
    }

    /// `n` elements, each in a class of its own.
    pub fn new(n: usize) -> (d: Dsu)
        ensures
            d.wf(),
            d@.len() == n,
            forall|k: int| 0 <= k < n ==> #[trigger] d@[k] == k,
    {
        let mut parent: Vec<usize> = Vec::new();
        let mut i: usize = 0;
        while i < n
            invariant
                i <= n,
                parent@.len() == i,
                forall|k: int| 0 <= k < i ==> #[trigger] parent@[k] == k,
            decreases n - i,
        {
            parent.push(i);
            i = i + 1;
        }
        Dsu {
            parent,
            rep: Ghost(Seq::new(n as nat, |k: int| k)),
            rank: Ghost(Seq::new(n as nat, |k: int| 0nat)),
            max_rank: Ghost(0nat),
        }
    }

    /// The root of the class of `i`. Compresses the path walked; the classes stay.
    pub fn find(&mut self, i: usize) -> (root: usize)
        requires
            old(self).wf(),
            i < old(self)@.len(),
        ensures
            final(self).wf(),
            final(self)@ == old(self)@,
            root == old(self)@[i as int],
            final(self).same_ranks(*old(self)),
        decreases old(self).height(i as int),
    {
        let p = self.parent[i];
        if p == i {
            i
        } else {
            assert(self.rank@[i as int] < self.rank@[p as int]);
            let r = self.find(p);
            assert(self.rep@[i as int] == r);
            self.parent.set(i, r);
            proof {
                let n = self.parent@.len();
                assert forall|k: int|
                    0 <= k < n implies self.rep@[#[trigger] self.parent@[k] as int] == self.rep@[k] by {
                }
                assert forall|k: int|
                    0 <= k < n && #[trigger] self.parent@[k] == k implies self.rep@[k] == k by {
                }
                assert forall|k: int|
                    0 <= k < n && #[trigger] self.parent@[k] != k implies self.rank@[k]
                    < self.rank@[self.parent@[k] as int] by {
                }
            }
            r
        }
    }

    /// Joins the classes of `i` and `j`; true when they were apart.
    pub fn union(&mut self, i: usize, j: usize) -> (joined: bool)
        requires
            old(self).wf(),
            i < old(self)@.len(),
            j < old(self)@.len(),
        ensures
            final(self).wf(),
            final(self)@ == merged(old(self)@, i as int, j as int),
            joined == (old(self)@[i as int] != old(self)@[j as int]),
    {
        let ri = self.find(i);
        let rj = self.find(j);
        if ri != rj {
            proof {
                lemma_link(self.parent@, self.rep@, self.rank@, self.max_rank@, i as int, j as int);
            }
            let ghost nr = link_rank(self.rank@, ri as int, rj as int);
            self.parent.set(ri, rj);
            proof {
                self.rep@ = merged(self.rep@, i as int, j as int);
                self.rank@ = self.rank@.update(rj as int, nr);
                self.max_rank@ = if nr > self.max_rank@ { nr } else { self.max_rank@ };
            }
            true
        } else {
            proof {
                assert(merged(self.rep@, i as int, j as int) =~= self.rep@);
            }
            false
        }
    }

    /// Whether `i` and `j` are in one class.
    pub fn connected(&mut self, i: usize, j: usize) -> (same: bool)
        requires
            old(self).wf(),
            i < old(self)@.len(),
            j < old(self)@.len(),
        ensures
            final(self).wf(),
            final(self)@ == old(self)@,
            same == (old(self)@[i as int] == old(self)@[j as int]),
    {
        let ri = self.find(i);
        let rj = self.find(j);
        ri == rj
    }
}

} // verus!
