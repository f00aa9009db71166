//! The lattice of one trial: its sites, and the in-place sweep that spreads fire.

use vstd::prelude::*;

use crate::random::draw_below;

verus! {

/// What resides at a site of a lattice.
#[derive(Clone, Copy, Debug, PartialEq, Eq, Structural)]
pub enum LatticePoint {
    Empty,
    Tree,
    Burning,
}

/// Whether a sweep set a new tree on fire.
#[derive(Clone, Copy, Debug, PartialEq, Eq, Structural)]
pub enum SweepResult {
    /// No tree was ignited: the lattice is at rest.
    Identity,
    /// One or more trees were ignited.
    Ignited,
}

/// A `side × side` grid of sites, stored row-major: site `(row, col)` is at
/// index `row * side + col`.
pub struct Lattice {
    side: usize,
    current: Vec<LatticePoint>,
}

/// Linear index of site `(row, col)` on a grid of the given side.
pub open spec fn site(side: int, row: int, col: int) -> int {
    row * side + col
}

/// Whether one of the four orthogonal neighbours of `(row, col)` is burning in `c`;
/// neighbours outside the grid are absent.
pub open spec fn has_burning_neighbor(side: int, c: Seq<LatticePoint>, row: int, col: int) -> bool {
    ||| (row > 0 && c[site(side, row - 1, col)] == LatticePoint::Burning)
    ||| (row + 1 < side && c[site(side, row + 1, col)] == LatticePoint::Burning)
    ||| (col > 0 && c[site(side, row, col - 1)] == LatticePoint::Burning)
    ||| (col + 1 < side && c[site(side, row, col + 1)] == LatticePoint::Burning)
}

/// The grid after site `(row, col)` is visited: a tree with a burning neighbour ignites.
pub open spec fn visit(side: int, c: Seq<LatticePoint>, row: int, col: int) -> Seq<LatticePoint> {
    if c[site(side, row, col)] == LatticePoint::Tree && has_burning_neighbor(side, c, row, col) {
        c.update(site(side, row, col), LatticePoint::Burning)
    } else {
        c
    }
}

/// The grid after the first `k` sites, in row-major order, were visited in place:
/// each visit sees what the visits before it wrote.
pub open spec fn scan(side: int, c: Seq<LatticePoint>, k: nat) -> Seq<LatticePoint>
    decreases k,
{
    if k == 0 {
        c
    } else {
        let k1 = k - 1;
        visit(side, scan(side, c, k1 as nat), k1 / side, k1 % side)
    }
}

/// The grid after one full sweep.
pub open spec fn swept(side: int, c: Seq<LatticePoint>) -> Seq<LatticePoint> {
    scan(side, c, (side * side) as nat)
}

/// `b` is `a` with some trees set on fire, and nothing else changed.
pub open spec fn only_ignites(a: Seq<LatticePoint>, b: Seq<LatticePoint>) -> bool {
    &&& b.len() == a.len()
    &&& forall|k: int|
        0 <= k < a.len() ==> (#[trigger] b[k] == a[k] || (a[k] == LatticePoint::Tree && b[k]
            == LatticePoint::Burning))
}

/// The grid after `k` full sweeps.
pub open spec fn sweeps(side: int, c: Seq<LatticePoint>, k: nat) -> Seq<LatticePoint>
    decreases k,
{
    if k == 0 {
        c
    } else {
        swept(side, sweeps(side, c, (k - 1) as nat))
    }
}

/// Each of the first `count` sweeps from `c` ignites a tree, and the next one does not.
pub open spec fn rests_after(side: int, c: Seq<LatticePoint>, count: nat) -> bool {
    &&& forall|k: nat| k < count ==> #[trigger] sweeps(side, c, k + 1) != sweeps(side, c, k)
    &&& sweeps(side, c, count + 1) == sweeps(side, c, count)
}

/// The number of sites of `c` that hold a tree.
pub open spec fn trees(c: Seq<LatticePoint>) -> nat
    decreases c.len(),
{
    if c.len() == 0 {
        0
    } else {
        trees(c.drop_last()) + if c.last() == LatticePoint::Tree {
            1nat
        } else {
            0nat
        }
    }
}

/// What the site at linear index `i` of a side-`side` grid starts as: empty, or a tree,
/// which burns from the start in the first row.
pub open spec fn seeded(side: int, i: int, occupied: bool) -> LatticePoint {
    if !occupied {
        LatticePoint::Empty
    } else if i < side {
        LatticePoint::Burning
    } else {
        LatticePoint::Tree
    }
}

/// A grid never holds more trees than sites.
pub proof fn lemma_trees_at_most_len(c: Seq<LatticePoint>)
    ensures
        trees(c) <= c.len(),
    decreases c.len(),
{
    if c.len() > 0 {
        lemma_trees_at_most_len(c.drop_last());
    }
}

/// Igniting trees never adds one, and igniting any removes one at least.
pub proof fn lemma_ignite_removes_trees(a: Seq<LatticePoint>, b: Seq<LatticePoint>)
    requires
        only_ignites(a, b),
    ensures
        trees(b) <= trees(a),
        a != b ==> trees(b) < trees(a),
    decreases a.len(),
{
    if a.len() > 0 {
        let (a1, b1) = (a.drop_last(), b.drop_last());
        assert(only_ignites(a1, b1)) by {
            assert forall|k: int| 0 <= k < a1.len() implies (#[trigger] b1[k] == a1[k] || (a1[k]
                == LatticePoint::Tree && b1[k] == LatticePoint::Burning)) by {
                assert(b1[k] == b[k] && a1[k] == a[k]);
            }
        }
        lemma_ignite_removes_trees(a1, b1);
        assert(only_ignites(a, b) ==> (b[a.len() - 1] == a[a.len() - 1] || (a[a.len() - 1]
            == LatticePoint::Tree && b[a.len() - 1] == LatticePoint::Burning)));
        if a != b && a.last() == b.last() {
            assert(a1 != b1) by {
                if a1 == b1 {
                    assert(a =~= b) by {
                        assert forall|k: int| 0 <= k < a.len() implies a[k] == b[k] by {
                            if k < a.len() - 1 {
                                assert(a[k] == a1[k] && b[k] == b1[k]);
                            }
                        }
                    }
                }
            }
        }
    } else {
        assert(a =~= b);
    }
}

/// The grid of side `side` drawn from one value per site: site `i` is occupied when
/// `draws[i] < numer`.
pub open spec fn drawn(side: int, numer: int, draws: Seq<usize>) -> Seq<LatticePoint> {
    Seq::new(draws.len(), |i: int| seeded(side, i, draws[i] < numer))
}

/// `draws` holds one value from `0..denom` for each site of a side-`side` grid.
pub open spec fn valid_draws(side: int, denom: int, draws: Seq<usize>) -> bool {
    &&& draws.len() == side * side
    &&& forall|i: int| 0 <= i < draws.len() ==> #[trigger] draws[i] < denom
}

/// For the same draws, a higher probability keeps every occupied site as it was: the
/// occupied sites only grow with `numer`, and each keeps its kind.
pub proof fn lemma_higher_probability_keeps_sites(
    side: int,
    draws: Seq<usize>,
    numer1: int,
    numer2: int,
)
    requires
        numer1 <= numer2,
    ensures
        forall|i: int|
            0 <= i < draws.len() && drawn(side, numer1, draws)[i] != LatticePoint::Empty
                ==> #[trigger] drawn(side, numer2, draws)[i] == drawn(side, numer1, draws)[i],
{
}

proof fn lemma_site_in_grid(side: int, row: int, col: int)
    requires
        0 <= row < side,
        0 <= col < side,
    ensures
        0 <= site(side, row, col) < side * side,
        site(side, row, col) / side == row,
        site(side, row, col) % side == col,
{
    assert(0 <= row * side + col < side * side) by (nonlinear_arith)
        requires
            0 <= row < side,
            0 <= col < side,
    ;
    vstd::arithmetic::div_mod::lemma_fundamental_div_mod_converse(
        site(side, row, col),
        side,
        row,
        col,
    );
}

impl View for Lattice {
    type V = Seq<LatticePoint>;

    closed spec fn view(&self) -> Seq<LatticePoint> {
        self.current@
    }
}

impl Lattice {
    /// The side of the grid.
    pub closed spec fn dim(&self) -> nat {
        self.side as nat
    }

    /// The grid holds `side * side` sites.
    pub open spec fn wf(&self) -> bool {
        self@.len() == self.dim() * self.dim()
    }

    /// The side of the grid.
    pub fn side(&self) -> (r: usize)
        ensures
            r == self.dim(),
    {
        self.side
    }

    /// What resides at site `(row, col)`.
    pub fn get(&self, row: usize, col: usize) -> (r: LatticePoint)
        requires
            self.wf(),
            row < self.dim(),
            col < self.dim(),
        ensures
            r == self@[site(self.dim() as int, row as int, col as int)],
    {
        self.current[self.site_index(row, col)]
    }

    /// Linear index of site `(row, col)`.
    fn site_index(&self, row: usize, col: usize) -> (r: usize)
        requires
            self.wf(),
            row < self.dim(),
            col < self.dim(),
        ensures
            r == site(self.dim() as int, row as int, col as int),
            r < self@.len(),
    {
        proof {
            lemma_site_in_grid(self.side as int, row as int, col as int);
            assert(row * self.side <= row * self.side + col) by (nonlinear_arith);
        }
        let sites = self.current.len();
        assert(row * self.side + col < sites);
        row * self.side + col
    }

    /// The lattice of side `n` built from one draw per site: site `i` is occupied when
    /// `draws[i] < numer`; occupied sites of the first row burn, the others hold a tree.
    pub fn from_draws(n: usize, numer: usize, draws: &Vec<usize>) -> (r: Lattice)
        requires
            draws@.len() == n * n,
        ensures
            r.wf(),
            r.dim() == n,
            r@ == drawn(n as int, numer as int, draws@),
    {
        let mut current: Vec<LatticePoint> = Vec::new();
        let mut i: usize = 0;
        while i < draws.len()
            invariant
                0 <= i <= draws@.len(),
                current@.len() == i,
                forall|k: int|
                    0 <= k < i ==> #[trigger] current@[k] == seeded(
                        n as int,
                        k,
                        draws@[k] < numer,
                    ),
            decreases draws@.len() - i,
        {
            let point = if draws[i] < numer {
                if i < n {
                    LatticePoint::Burning
                } else {
                    LatticePoint::Tree
                }
            } else {
                LatticePoint::Empty
            };
            current.push(point);
            i = i + 1;
        }
        let r = Lattice { side: n, current };
        assert(r@ =~= drawn(n as int, numer as int, draws@));
        r
    }

    /// A random lattice of side `n` in which each site is occupied, independently, with
    /// probability `numer / denom`: `n * n` draws from `0..denom`, the `i`-th of which
    /// decides site `i` as `from_draws` does.
    pub fn generate(n: usize, numer: usize, denom: usize) -> (r: Lattice)
        requires
            0 < denom,
            numer <= denom,
            n * n <= usize::MAX,
        ensures
            r.wf(),
            r.dim() == n,
            exists|d: Seq<usize>|
                valid_draws(n as int, denom as int, d) && r@ == #[trigger] drawn(
                    n as int,
                    numer as int,
                    d,
                ),
            forall|i: int|
                0 <= i < n * n ==> #[trigger] r@[i] == seeded(n as int, i, false) || r@[i]
                    == seeded(n as int, i, true),
            numer == 0 ==> forall|i: int|
                0 <= i < n * n ==> #[trigger] r@[i] == seeded(n as int, i, false),
            numer == denom ==> forall|i: int|
                0 <= i < n * n ==> #[trigger] r@[i] == seeded(n as int, i, true),
    {
        let count = n * n;
        let mut draws: Vec<usize> = Vec::new();
        let mut i: usize = 0;
        while i < count
            invariant
                count == n * n,
                0 < denom,
                0 <= i <= count,
                draws@.len() == i,
                forall|k: int| 0 <= k < i ==> #[trigger] draws@[k] < denom,
            decreases count - i,
        {
            draws.push(draw_below(denom));
            i = i + 1;
        }
        let r = Lattice::from_draws(n, numer, &draws);
        assert(valid_draws(n as int, denom as int, draws@));
        assert forall|i: int| 0 <= i < n * n implies #[trigger] r@[i] == seeded(
            n as int,
            i,
            draws@[i] < numer,
        ) by {}
        r
    }

    /// Sweeps until a sweep ignites nothing, and returns how many sweeps ignited a tree.
    pub fn burn_out(&mut self) -> (count: usize)
        requires
            old(self).wf(),
        ensures
            final(self).wf(),
            final(self).dim() == old(self).dim(),
            final(self)@ == sweeps(old(self).dim() as int, old(self)@, count as nat),
            rests_after(old(self).dim() as int, old(self)@, count as nat),
            count <= trees(old(self)@),
            count <= old(self).dim() * old(self).dim(),
    {
        let ghost c0 = self@;
        let ghost s = self.side as int;
        let len = self.current.len();
        proof {
            lemma_trees_at_most_len(c0);
        }
        let mut count: usize = 0;
        let mut at_rest = false;
        while !at_rest
            invariant
                self.wf(),
                self.dim() == s,
                len == c0.len(),
                trees(c0) <= len,
                self@ == sweeps(s, c0, count as nat),
                forall|k: nat| k < count ==> #[trigger] sweeps(s, c0, k + 1) != sweeps(s, c0, k),
                at_rest ==> sweeps(s, c0, count as nat + 1) == sweeps(s, c0, count as nat),
                count + trees(self@) <= trees(c0),
            decreases trees(self@) + if at_rest {
                0nat
            } else {
                1nat
            },
        {
            let ghost before = self@;
            let r = self.sweep();
            proof {
                lemma_ignite_removes_trees(before, self@);
                assert(self@ == sweeps(s, c0, count as nat + 1));
            }
            match r {
                SweepResult::Identity => {
                    at_rest = true;
                },
                SweepResult::Ignited => {
                    proof {
                        assert forall|k: nat| k < count + 1 implies #[trigger] sweeps(s, c0, k + 1)
                            != sweeps(s, c0, k) by {
                            if k == count as nat {
                                assert(sweeps(s, c0, count as nat + 1) != sweeps(s, c0, count as nat));
                            }
                        }
                    }
                    count = count + 1;
                },
            }
        }
        count
    }

    /// One sweep: visits every site in row-major order, in place, and ignites each
    /// tree that has a burning neighbour at the moment it is visited.
    pub fn sweep(&mut self) -> (r: SweepResult)
        requires
            old(self).wf(),
        ensures
            final(self).wf(),
            final(self).dim() == old(self).dim(),
            final(self)@ == swept(old(self).dim() as int, old(self)@),
            only_ignites(old(self)@, final(self)@),
            r is Ignited <==> final(self)@ != old(self)@,
    {
        let ghost c0 = self@;
        let ghost s = self.side as int;
        let side = self.side;
        let mut result = SweepResult::Identity;
        let mut i: usize = 0;
        while i < side
            invariant
                self.wf(),
                self.side == side,
                s == side,
                0 <= i <= side,
                self@ == scan(s, c0, (i * side) as nat),
                only_ignites(c0, self@),
                result is Ignited <==> self@ != c0,
            decreases side - i,
        {
            let mut j: usize = 0;
            while j < side
                invariant
                    self.wf(),
                    self.side == side,
                    s == side,
                    0 <= i < side,
                    0 <= j <= side,
                    self@ == scan(s, c0, (i * side + j) as nat),
                    only_ignites(c0, self@),
                    result is Ignited <==> self@ != c0,
                decreases side - j,
            {
                proof {
                    lemma_site_in_grid(s, i as int, j as int);
                }
                if let LatticePoint::Tree = self.get(i, j) {
                    let should_burn = (i > 0 && matches!(self.get(i - 1, j), LatticePoint::Burning))
                        || (i + 1 < side && matches!(self.get(i + 1, j), LatticePoint::Burning))
                        || (j > 0 && matches!(self.get(i, j - 1), LatticePoint::Burning))
                        || (j + 1 < side && matches!(self.get(i, j + 1), LatticePoint::Burning));
                    if should_burn {
                        let idx = self.site_index(i, j);
                        self.current[idx] = LatticePoint::Burning;
                        result = SweepResult::Ignited;
                        assert(self@[idx as int] != c0[idx as int]);
                    }
                }
                j = j + 1;
            }
            proof {
                assert((i + 1) * side == i * side + side) by (nonlinear_arith);
            }
            i = i + 1;
        }
        result
    }
}

} // verus!
