//! A disjoint-set forest over the dense indices `0 .. len`, with union by
//! rank and path compression.
use crate::error::MsfError;
use vstd::prelude::*;

verus! {

/// Every parent link stays inside the structure and leads to a vertex of
/// strictly higher rank, and no rank exceeds the number of vertices that
/// have been attached below another.
pub open spec fn links_ok(parents: Seq<usize>, ranks: Seq<usize>) -> bool {
    &&& parents.len() == ranks.len()
    &&& forall|x: int|
        0 <= x < parents.len() ==> {
            &&& (#[trigger] parents[x]) < parents.len()
            &&& (parents[x] != x ==> ranks[x] < ranks[parents[x] as int])
        }
    &&& forall|x: int|
        0 <= x < ranks.len() ==> (#[trigger] ranks[x]) <= attached(parents, parents.len() as int)
}

/// How many of the vertices `0 .. k` have a parent other than themselves.
pub open spec fn attached(parents: Seq<usize>, k: int) -> int
    decreases k,
{
    if k <= 0 {
        0
    } else {
        attached(parents, k - 1) + if parents[k - 1] != k - 1 {
            1int
        } else {
            0int
        }
    }
}

/// The vertex reached from `x` by following parent links to the end.
pub open spec fn root_of(parents: Seq<usize>, ranks: Seq<usize>, x: int) -> int
    decreases usize::MAX - ranks[x],
    when links_ok(parents, ranks) && 0 <= x < parents.len()
{
    if parents[x] == x {
        x
    } else {
        root_of(parents, ranks, parents[x] as int)
    }
}

/// `x` is met on the way from `v` to its root, both ends included.
pub open spec fn on_path(parents: Seq<usize>, ranks: Seq<usize>, v: int, x: int) -> bool
    decreases usize::MAX - ranks[v],
    when links_ok(parents, ranks) && 0 <= v < parents.len()
{
    x == v || (parents[v] != v && on_path(parents, ranks, parents[v] as int, x))
}

/// At most `k` of the vertices `0 .. k` are attached.
proof fn lemma_attached_bound(parents: Seq<usize>, k: int)
    ensures
        0 <= attached(parents, k),
        k >= 0 ==> attached(parents, k) <= k,
    decreases k,
{
    if k > 0 {
        lemma_attached_bound(parents, k - 1);
    }
}

/// Two distinct roots leave room for at most `k - 2` attached vertices.
proof fn lemma_attached_two_roots(parents: Seq<usize>, k: int, a: int, b: int)
    requires
        0 <= a,
        0 <= b,
        a != b,
        a < parents.len(),
        b < parents.len(),
        parents[a] == a,
        parents[b] == b,
        0 <= k <= parents.len(),
    ensures
        attached(parents, k) + (if a < k {
            1int
        } else {
            0int
        }) + (if b < k {
            1int
        } else {
            0int
        }) <= k,
    decreases k,
{
    if k > 0 {
        lemma_attached_two_roots(parents, k - 1, a, b);
    }
}

/// Changing one parent link changes the count by what that link adds.
proof fn lemma_attached_update(parents: Seq<usize>, x: int, y: usize, k: int)
    requires
        0 <= x < parents.len(),
        0 <= k <= parents.len(),
    ensures
        attached(parents.update(x, y), k) == attached(parents, k) + if x < k {
            (if y != x {
                1int
            } else {
                0int
            }) - (if parents[x] != x {
                1int
            } else {
                0int
            })
        } else {
            0int
        },
    decreases k,
{
    if k > 0 {
        lemma_attached_update(parents, x, y, k - 1);
    }
}

/// The root of a vertex is a vertex that is its own parent, met on the way
/// from the vertex, and of higher rank than any other vertex on that way.
proof fn lemma_root_props(parents: Seq<usize>, ranks: Seq<usize>, x: int)
    requires
        links_ok(parents, ranks),
        0 <= x < parents.len(),
    ensures
        0 <= root_of(parents, ranks, x) < parents.len(),
        parents[root_of(parents, ranks, x)] == root_of(parents, ranks, x),
        ranks[x] <= ranks[root_of(parents, ranks, x)],
        parents[x] != x ==> ranks[x] < ranks[root_of(parents, ranks, x)],
        on_path(parents, ranks, x, root_of(parents, ranks, x)),
    decreases usize::MAX - ranks[x],
{
    lemma_attached_bound(parents, parents.len() as int);
    if parents[x] != x {
        lemma_root_props(parents, ranks, parents[x] as int);
    }
}

/// What lies on a path has at least the rank of the path's start, and the
/// same root.
proof fn lemma_on_path_props(parents: Seq<usize>, ranks: Seq<usize>, v: int, x: int)
    requires
        links_ok(parents, ranks),
        0 <= v < parents.len(),
        on_path(parents, ranks, v, x),
    ensures
        0 <= x < parents.len(),
        ranks[v] <= ranks[x],
        x != v ==> ranks[v] < ranks[x],
        root_of(parents, ranks, x) == root_of(parents, ranks, v),
    decreases usize::MAX - ranks[v],
{
    lemma_attached_bound(parents, parents.len() as int);
    if x != v {
        lemma_on_path_props(parents, ranks, parents[v] as int, x);
    }
}

/// What is met on the way from a vertex that is met on the way from `v` is
/// met on the way from `v`.
proof fn lemma_on_path_trans(parents: Seq<usize>, ranks: Seq<usize>, v: int, c: int, x: int)
    requires
        links_ok(parents, ranks),
        0 <= v < parents.len(),
        on_path(parents, ranks, v, c),
        on_path(parents, ranks, c, x),
    ensures
        on_path(parents, ranks, v, x),
    decreases usize::MAX - ranks[v],
{
    lemma_attached_bound(parents, parents.len() as int);
    if c != v {
        lemma_on_path_trans(parents, ranks, parents[v] as int, c, x);
    }
}

/// Pointing a vertex straight at its root moves no root.
proof fn lemma_compress_keeps_roots(parents: Seq<usize>, ranks: Seq<usize>, x: int, y: int)
    requires
        links_ok(parents, ranks),
        0 <= x < parents.len(),
        0 <= y < parents.len(),
        parents[x] != x,
    ensures
        links_ok(parents.update(x, root_of(parents, ranks, x) as usize), ranks),
        root_of(parents.update(x, root_of(parents, ranks, x) as usize), ranks, y) == root_of(
            parents,
            ranks,
            y,
        ),
    decreases usize::MAX - ranks[y],
{
    let r = root_of(parents, ranks, x);
    lemma_root_props(parents, ranks, x);
    lemma_attached_bound(parents, parents.len() as int);
    let after = parents.update(x, r as usize);
    lemma_attached_update(parents, x, r as usize, parents.len() as int);
    assert(links_ok(after, ranks));
    if y == x {
        assert(after[r] == r);
        assert(root_of(after, ranks, r) == r);
    } else if parents[y] != y {
        lemma_compress_keeps_roots(parents, ranks, x, parents[y] as int);
    }
}

/// After the root `lose` has been attached below the root `win`, whatever
/// led to `lose` leads to `win`, and every other root is where it was.
proof fn lemma_link_roots(
    parents: Seq<usize>,
    ranks: Seq<usize>,
    after: Seq<usize>,
    after_ranks: Seq<usize>,
    win: int,
    lose: int,
    y: int,
)
    requires
        links_ok(parents, ranks),
        links_ok(after, after_ranks),
        0 <= win < parents.len(),
        0 <= lose < parents.len(),
        win != lose,
        parents[win] == win,
        parents[lose] == lose,
        after == parents.update(lose, win as usize),
        0 <= y < parents.len(),
    ensures
        root_of(after, after_ranks, y) == if root_of(parents, ranks, y) == lose {
            win
        } else {
            root_of(parents, ranks, y)
        },
    decreases usize::MAX - ranks[y],
{
    lemma_attached_bound(parents, parents.len() as int);
    lemma_attached_bound(after, after.len() as int);
    if y == lose {
        assert(after[win] == win);
        assert(root_of(after, after_ranks, win) == win);
    } else if parents[y] != y {
        lemma_link_roots(parents, ranks, after, after_ranks, win, lose, parents[y] as int);
    }
}

/// The root of a vertex is a vertex, and is its own root.
pub proof fn lemma_root_in_range(ds: DisjointSet, x: int)
    requires
        ds.well_formed(),
        0 <= x < ds.size(),
    ensures
        0 <= ds.root(x) < ds.size(),
        ds.root(ds.root(x)) == ds.root(x),
{
    lemma_root_props(ds.parents(), ds.ranks(), x);
}

/// A partition of `0 .. len` into disjoint sets, each led by a root.
#[derive(Debug)]
pub struct DisjointSet {
    parents: Vec<usize>,
    ranks: Vec<usize>,
}

impl DisjointSet {
    /// The parent link of every vertex; a root is its own parent.
    pub closed spec fn parents(&self) -> Seq<usize> {
        self.parents@
    }

    /// The rank of every vertex.
    pub closed spec fn ranks(&self) -> Seq<usize> {
        self.ranks@
    }

    /// The number of vertices.
    pub open spec fn size(&self) -> nat {
        self.parents().len()
    }

    /// The invariant that every operation keeps.
    pub open spec fn well_formed(&self) -> bool {
        links_ok(self.parents(), self.ranks())
    }

    /// The root of the set that holds `v`.
    pub open spec fn root(&self, v: int) -> int {
        root_of(self.parents(), self.ranks(), v)
    }

    /// `a` and `b` lie in one set.
    pub open spec fn same_set(&self, a: int, b: int) -> bool {
        self.root(a) == self.root(b)
    }

    /// A structure without vertices.
    pub fn new() -> (ds: Self)
        ensures
            ds.well_formed(),
            ds.size() == 0,
    {
        DisjointSet { parents: Vec::new(), ranks: Vec::new() }
    }

    /// The number of vertices.
    pub fn len(&self) -> (n: usize)
        ensures
            n == self.size(),
    {
        self.parents.len()
    }

    /// The dense index of `value`, if the structure holds it.
    pub fn get_idx(&self, value: usize) -> (idx: Option<usize>)
        ensures
            idx == if value < self.size() {
                Some(value)
            } else {
                None
            },
    {
        if value < self.parents.len() {
            Some(value)
        } else {
            None
        }
    }

    /// Resets the structure to `count` sets of one vertex each.
    pub fn make_set(&mut self, count: usize)
        ensures
            final(self).well_formed(),
            final(self).size() == count,
            forall|x: int| 0 <= x < count ==> #[trigger] final(self).parents()[x] == x,
            forall|x: int| 0 <= x < count ==> #[trigger] final(self).ranks()[x] == 0,
            forall|x: int| 0 <= x < count ==> #[trigger] final(self).root(x) == x,
    {
        let mut parents: Vec<usize> = Vec::new();
        let mut ranks: Vec<usize> = Vec::new();
        let mut i: usize = 0;
        while i < count
            invariant
                i <= count,
                parents.len() == i,
                ranks.len() == i,
                forall|x: int| 0 <= x < i ==> #[trigger] parents[x] == x,
                forall|x: int| 0 <= x < i ==> #[trigger] ranks[x] == 0,
            decreases count - i,
        {
            parents.push(i);
            ranks.push(0);
            i += 1;
        }
        proof {
            lemma_attached_bound(parents@, parents@.len() as int);
        }
        self.parents = parents;
        self.ranks = ranks;
    }

    /// The root of the set that holds `v`.  Every vertex met on the way is
    /// pointed straight at that root; no set changes.
    pub fn find(&mut self, v: usize) -> (r: Result<usize, MsfError>)
        requires
            old(self).well_formed(),
        ensures
            final(self).well_formed(),
            final(self).size() == old(self).size(),
            final(self).ranks() == old(self).ranks(),
            forall|x: int|
                0 <= x < old(self).size() ==> #[trigger] final(self).root(x) == old(self).root(x),
            v >= old(self).size() ==> r == Err::<usize, MsfError>(MsfError::InvalidIndex)
                && final(self).parents() == old(self).parents(),
            v < old(self).size() ==> r == Ok::<usize, MsfError>(old(self).root(v as int) as usize),
            v < old(self).size() ==> forall|x: int|
                0 <= x < old(self).size() ==> #[trigger] final(self).parents()[x] == if on_path(
                    old(self).parents(),
                    old(self).ranks(),
                    v as int,
                    x,
                ) {
                    old(self).root(v as int) as usize
                } else {
                    old(self).parents()[x]
                },
    {
        if v >= self.parents.len() {
            return Err(MsfError::InvalidIndex);
        }
        let ghost old_parents = self.parents@;
        let ghost ranks = self.ranks@;
        let ghost n = self.parents@.len();
        proof {
            lemma_attached_bound(old_parents, n as int);
            lemma_root_props(old_parents, ranks, v as int);
        }
        let mut root: usize = v;
        while self.parents[root] != root
            invariant
                self.parents@ == old_parents,
                self.ranks@ == ranks,
                links_ok(old_parents, ranks),
                n == old_parents.len(),
                root < n,
                root_of(old_parents, ranks, root as int) == root_of(old_parents, ranks, v as int),
            decreases usize::MAX - ranks[root as int],
        {
            root = self.parents[root];
        }
        let mut cur: usize = v;
        while self.parents[cur] != root
            invariant
                self.ranks@ == ranks,
                links_ok(old_parents, ranks),
                links_ok(self.parents@, ranks),
                n == old_parents.len(),
                self.parents@.len() == n,
                root < n,
                cur < n,
                v < n,
                root == root_of(old_parents, ranks, v as int),
                old_parents[root as int] == root,
                on_path(old_parents, ranks, v as int, cur as int),
                forall|x: int|
                    0 <= x < n ==> #[trigger] root_of(self.parents@, ranks, x) == root_of(
                        old_parents,
                        ranks,
                        x,
                    ),
                forall|x: int|
                    0 <= x < n ==> #[trigger] self.parents@[x] == if on_path(
                        old_parents,
                        ranks,
                        v as int,
                        x,
                    ) && !on_path(old_parents, ranks, cur as int, x) {
                        root
                    } else {
                        old_parents[x]
                    },
            decreases usize::MAX - ranks[cur as int],
        {
            let next = self.parents[cur];
            let ghost before = self.parents@;
            proof {
                lemma_on_path_props(old_parents, ranks, v as int, cur as int);
                assert(on_path(old_parents, ranks, cur as int, cur as int));
                assert(before[cur as int] == old_parents[cur as int]);
                assert(next != cur);
                assert(root_of(before, ranks, cur as int) == root);
                lemma_compress_keeps_roots(before, ranks, cur as int, cur as int);
                assert forall|x: int| 0 <= x < n implies #[trigger] root_of(
                    before.update(cur as int, root),
                    ranks,
                    x,
                ) == root_of(old_parents, ranks, x) by {
                    lemma_compress_keeps_roots(before, ranks, cur as int, x);
                }
                assert(on_path(old_parents, ranks, cur as int, next as int)) by {
                    assert(on_path(old_parents, ranks, next as int, next as int));
                }
                lemma_on_path_trans(old_parents, ranks, v as int, cur as int, next as int);
                assert forall|x: int| 0 <= x < n implies #[trigger] before.update(
                    cur as int,
                    root,
                )[x] == if on_path(old_parents, ranks, v as int, x) && !on_path(
                    old_parents,
                    ranks,
                    next as int,
                    x,
                ) {
                    root
                } else {
                    old_parents[x]
                } by {
                    if on_path(old_parents, ranks, next as int, x) {
                        lemma_on_path_props(old_parents, ranks, next as int, x);
                        assert(x != cur);
                        assert(on_path(old_parents, ranks, cur as int, x));
                    }
                    if x != cur && on_path(old_parents, ranks, cur as int, x) {
                        assert(on_path(old_parents, ranks, next as int, x));
                    }
                }
            }
            self.parents.set(cur, root);
            cur = next;
        }
        proof {
            assert forall|x: int| 0 <= x < n implies #[trigger] self.parents@[x] == if on_path(
                old_parents,
                ranks,
                v as int,
                x,
            ) {
                root
            } else {
                old_parents[x]
            } by {
                if on_path(old_parents, ranks, cur as int, x) {
                    lemma_on_path_trans(old_parents, ranks, v as int, cur as int, x);
                    assert(self.parents@[cur as int] == old_parents[cur as int]) by {
                        assert(on_path(old_parents, ranks, cur as int, cur as int));
                    }
                    if x != cur {
                        // the way on from `cur` is the root alone
                        assert(on_path(old_parents, ranks, root as int, x));
                        assert(x == root);
                    }
                }
            }
        }
        Ok(root)
    }

    /// Joins the sets that hold `a` and `b`, and tells whether they were
    /// two.  The root of lower rank is attached below the other; of two
    /// roots of equal rank the one of `b` goes below the one of `a`, whose
    /// rank then grows by one.
    pub fn union(&mut self, a: usize, b: usize) -> (r: Result<bool, MsfError>)
        requires
            old(self).well_formed(),
        ensures
            final(self).well_formed(),
            final(self).size() == old(self).size(),
            (a >= old(self).size() || b >= old(self).size()) ==> {
                &&& r == Err::<bool, MsfError>(MsfError::InvalidIndex)
                &&& final(self).parents() == old(self).parents()
                &&& final(self).ranks() == old(self).ranks()
            },
            (a < old(self).size() && b < old(self).size()) ==> {
                &&& r == Ok::<bool, MsfError>(!old(self).same_set(a as int, b as int))
                &&& forall|x: int|
                    0 <= x < old(self).size() ==> #[trigger] final(self).root(x) == merged_root(
                        old(self).parents(),
                        old(self).ranks(),
                        a as int,
                        b as int,
                        x,
                    )
                &&& final(self).ranks() == merged_ranks(
                    old(self).parents(),
                    old(self).ranks(),
                    a as int,
                    b as int,
                )
            },
    {
        let n = self.parents.len();
        if a >= n || b >= n {
            return Err(MsfError::InvalidIndex);
        }
        let ghost parents0 = self.parents@;
        let ghost ranks0 = self.ranks@;
        proof {
            lemma_root_props(parents0, ranks0, a as int);
            lemma_root_props(parents0, ranks0, b as int);
        }
        let ghost ds0 = *self;
        let root_a = match self.find(a) {
            Ok(root) => root,
            Err(e) => {
                return Err(e);
            },
        };
        let ghost ds1 = *self;
        let root_b = match self.find(b) {
            Ok(root) => root,
            Err(e) => {
                return Err(e);
            },
        };
        let ghost parents1 = self.parents@;
        proof {
            assert forall|x: int| 0 <= x < n implies #[trigger] root_of(parents1, ranks0, x)
                == root_of(parents0, ranks0, x) by {
                assert(self.root(x) == ds1.root(x));
                assert(ds1.root(x) == ds0.root(x));
            }
            assert(root_of(parents1, ranks0, a as int) == root_a);
            assert(root_of(parents1, ranks0, b as int) == root_b);
        }
        if root_a == root_b {
            return Ok(false);
        }
        proof {
            lemma_root_props(parents1, ranks0, a as int);
            lemma_root_props(parents1, ranks0, b as int);
            lemma_attached_two_roots(parents1, n as int, root_a as int, root_b as int);
        }
        let rank_a = self.ranks[root_a];
        let rank_b = self.ranks[root_b];
        let (win, lose) = if rank_a < rank_b {
            (root_b, root_a)
        } else {
            (root_a, root_b)
        };
        self.parents.set(lose, win);
        if rank_a == rank_b {
            self.ranks.set(win, rank_a + 1);
        }
        proof {
            let parents2 = self.parents@;
            let ranks2 = self.ranks@;
            lemma_attached_update(parents1, lose as int, win, n as int);
            assert(links_ok(parents2, ranks2));
            assert forall|x: int| 0 <= x < n implies #[trigger] root_of(parents2, ranks2, x)
                == merged_root(parents0, ranks0, a as int, b as int, x) by {
                lemma_link_roots(parents1, ranks0, parents2, ranks2, win as int, lose as int, x);
            }
            assert(ranks2 =~= merged_ranks(parents0, ranks0, a as int, b as int));
        }
        Ok(true)
    }
}

/// The root that survives when the sets of `a` and `b` are joined.
pub open spec fn winner(parents: Seq<usize>, ranks: Seq<usize>, a: int, b: int) -> int {
    let ra = root_of(parents, ranks, a);
    let rb = root_of(parents, ranks, b);
    if ranks[ra] < ranks[rb] {
        rb
    } else {
        ra
    }
}

/// The root of `x` once the sets of `a` and `b` have been joined.
pub open spec fn merged_root(parents: Seq<usize>, ranks: Seq<usize>, a: int, b: int, x: int) -> int {
    let ra = root_of(parents, ranks, a);
    let rb = root_of(parents, ranks, b);
    let rx = root_of(parents, ranks, x);
    if rx == ra || rx == rb {
        winner(parents, ranks, a, b)
    } else {
        rx
    }
}

/// The ranks once the sets of `a` and `b` have been joined: unchanged,
/// but for the surviving root where two roots of equal rank met.
pub open spec fn merged_ranks(parents: Seq<usize>, ranks: Seq<usize>, a: int, b: int) -> Seq<
    usize,
> {
    let ra = root_of(parents, ranks, a);
    let rb = root_of(parents, ranks, b);
    if ra != rb && ranks[ra] == ranks[rb] {
        ranks.update(ra, (ranks[ra] + 1) as usize)
    } else {
        ranks
    }
}

} // verus!
