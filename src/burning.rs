//! Facts about how fire spreads over repeated sweeps.

use vstd::prelude::*;

use crate::lattice::{
    lemma_ignite_removes_trees, lemma_trees_at_most_len, has_burning_neighbor, only_ignites, rests_after, scan, seeded, site, swept, sweeps, trees, visit,
    LatticePoint,
};

verus! {

/// The fully occupied grid of the given side: the first row burns, every other site
/// holds a tree.
pub open spec fn full(side: int) -> Seq<LatticePoint> {
    Seq::new((side * side) as nat, |i: int| seeded(side, i, true))
}

/// The grid of the given side on which every site burns.
pub open spec fn all_burning(side: int) -> Seq<LatticePoint> {
    Seq::new((side * side) as nat, |i: int| LatticePoint::Burning)
}

/// The number of sweeps that ignite a tree on the fully occupied grid.
pub open spec fn full_depth(side: int) -> nat {
    if side > 1 {
        1
    } else {
        0
    }
}

/// A grid with no tree site counts no trees.
pub proof fn lemma_no_trees(c: Seq<LatticePoint>)
    requires
        forall|i: int| 0 <= i < c.len() ==> #[trigger] c[i] != LatticePoint::Tree,
    ensures
        trees(c) == 0,
    decreases c.len(),
{
    if c.len() > 0 {
        let c1 = c.drop_last();
        assert forall|i: int| 0 <= i < c1.len() implies #[trigger] c1[i] != LatticePoint::Tree by {
            assert(c1[i] == c[i]);
        }
        lemma_no_trees(c1);
        assert(c[c.len() - 1] != LatticePoint::Tree);
    }
}

proof fn lemma_row_col(side: int, k: int)
    requires
        0 <= side,
        0 <= k < side * side,
    ensures
        0 <= k / side < side,
        0 <= k % side < side,
        site(side, k / side, k % side) == k,
{
    assert(side > 0) by (nonlinear_arith)
        requires
            0 <= side,
            0 <= k < side * side,
    ;
    vstd::arithmetic::div_mod::lemma_fundamental_div_mod(k, side);
    vstd::arithmetic::div_mod::lemma_mod_pos_bound(k, side);
    let q = k / side;
    let r = k % side;
    assert(q * side == side * q) by (nonlinear_arith);
    assert(0 <= q < side) by (nonlinear_arith)
        requires
            k == q * side + r,
            0 <= r < side,
            0 <= k < side * side,
    ;
}

proof fn lemma_only_ignites_trans(a: Seq<LatticePoint>, b: Seq<LatticePoint>, c: Seq<LatticePoint>)
    requires
        only_ignites(a, b),
        only_ignites(b, c),
    ensures
        only_ignites(a, c),
{
    assert forall|k: int| 0 <= k < a.len() implies (#[trigger] c[k] == a[k] || (a[k]
        == LatticePoint::Tree && c[k] == LatticePoint::Burning)) by {
        assert(b[k] == a[k] || (a[k] == LatticePoint::Tree && b[k] == LatticePoint::Burning));
        assert(c[k] == b[k] || (b[k] == LatticePoint::Tree && c[k] == LatticePoint::Burning));
    }
}

proof fn lemma_scan_only_ignites(side: int, c: Seq<LatticePoint>, k: nat)
    requires
        0 <= side,
        c.len() == side * side,
        k <= side * side,
    ensures
        only_ignites(c, scan(side, c, k)),
    decreases k,
{
    if k == 0 {
        assert(only_ignites(c, c));
    } else {
        let k1 = k - 1;
        lemma_scan_only_ignites(side, c, k1 as nat);
        let prev = scan(side, c, k1 as nat);
        lemma_row_col(side, k1);
        let next = visit(side, prev, k1 / side, k1 % side);
        assert(only_ignites(prev, next)) by {
            assert forall|i: int| 0 <= i < prev.len() implies (#[trigger] next[i] == prev[i] || (
            prev[i] == LatticePoint::Tree && next[i] == LatticePoint::Burning)) by {}
        }
        lemma_only_ignites_trans(c, prev, next);
    }
}

/// A sweep only ignites trees: a burning site keeps burning, an empty one stays empty.
pub proof fn lemma_sweep_only_ignites(side: nat, c: Seq<LatticePoint>)
    requires
        c.len() == side * side,
    ensures
        only_ignites(c, swept(side as int, c)),
{
    lemma_scan_only_ignites(side as int, c, (side * side) as nat);
}

proof fn lemma_sweeps_len(side: nat, c: Seq<LatticePoint>, k: nat)
    requires
        c.len() == side * side,
    ensures
        sweeps(side as int, c, k).len() == c.len(),
    decreases k,
{
    if k > 0 {
        lemma_sweeps_len(side, c, (k - 1) as nat);
        lemma_sweep_only_ignites(side, sweeps(side as int, c, (k - 1) as nat));
    }
}

/// Across repeated sweeps of one lattice the set of burning sites never shrinks: from
/// the grid after `j` sweeps to the grid after `k >= j` sweeps, sites change only from
/// tree to burning.
pub proof fn lemma_burning_never_reverts(side: nat, c: Seq<LatticePoint>, j: nat, k: nat)
    requires
        c.len() == side * side,
        j <= k,
    ensures
        only_ignites(sweeps(side as int, c, j), sweeps(side as int, c, k)),
        forall|i: int|
            0 <= i < c.len() && sweeps(side as int, c, j)[i] == LatticePoint::Burning
                ==> #[trigger] sweeps(side as int, c, k)[i] == LatticePoint::Burning,
    decreases k,
{
    let s = side as int;
    lemma_sweeps_len(side, c, j);
    if k == j {
        assert(only_ignites(sweeps(s, c, j), sweeps(s, c, k)));
    } else {
        let k1 = (k - 1) as nat;
        lemma_burning_never_reverts(side, c, j, k1);
        lemma_sweeps_len(side, c, k1);
        lemma_sweep_only_ignites(side, sweeps(s, c, k1));
        lemma_only_ignites_trans(sweeps(s, c, j), sweeps(s, c, k1), sweeps(s, c, k));
    }
    let (a, b) = (sweeps(s, c, j), sweeps(s, c, k));
    assert forall|i: int|
        0 <= i < c.len() && a[i] == LatticePoint::Burning implies #[trigger] b[i]
        == LatticePoint::Burning by {
        assert(b[i] == a[i] || (a[i] == LatticePoint::Tree && b[i] == LatticePoint::Burning));
    }
}

proof fn lemma_trees_fall(side: nat, c: Seq<LatticePoint>, count: nat, m: nat)
    requires
        c.len() == side * side,
        rests_after(side as int, c, count),
        m <= count,
    ensures
        trees(sweeps(side as int, c, m)) + m <= trees(c),
    decreases m,
{
    if m > 0 {
        let m1 = (m - 1) as nat;
        lemma_trees_fall(side, c, count, m1);
        lemma_sweeps_len(side, c, m1);
        lemma_sweep_only_ignites(side, sweeps(side as int, c, m1));
        assert(sweeps(side as int, c, m1 + 1) != sweeps(side as int, c, m1));
        lemma_ignite_removes_trees(sweeps(side as int, c, m1), sweeps(side as int, c, m));
    }
}

/// On any `side × side` grid, the number of sweeps that ignite a tree before the grid
/// rests is at most the number of its trees, and so at most `side * side`.
pub proof fn lemma_rest_count_bounded(side: nat, c: Seq<LatticePoint>, count: nat)
    requires
        c.len() == side * side,
        rests_after(side as int, c, count),
    ensures
        count <= trees(c),
        count <= side * side,
{
    lemma_trees_fall(side, c, count, count);
    lemma_trees_at_most_len(c);
}

/// The count of igniting sweeps before the grid rests is unique.
pub proof fn lemma_rest_count_unique(side: int, c: Seq<LatticePoint>, a: nat, b: nat)
    requires
        rests_after(side, c, a),
        rests_after(side, c, b),
    ensures
        a == b,
{
    if a < b {
        assert(sweeps(side, c, a + 1) != sweeps(side, c, a));
    } else if b < a {
        assert(sweeps(side, c, b + 1) != sweeps(side, c, b));
    }
}

proof fn lemma_scan_full(side: int, k: nat)
    requires
        0 <= side,
        k <= side * side,
    ensures
        scan(side, full(side), k) == Seq::new(
            (side * side) as nat,
            |i: int|
                if i < k || i < side {
                    LatticePoint::Burning
                } else {
                    LatticePoint::Tree
                },
        ),
    decreases k,
{
    let pattern = |m: int|
        Seq::new(
            (side * side) as nat,
            |i: int|
                if i < m || i < side {
                    LatticePoint::Burning
                } else {
                    LatticePoint::Tree
                },
        );
    if k == 0 {
        assert(scan(side, full(side), 0) =~= pattern(0));
    } else {
        let k1 = k - 1;
        lemma_scan_full(side, k1 as nat);
        lemma_row_col(side, k1);
        let prev = pattern(k1);
        let (row, col) = (k1 / side, k1 % side);
        if k1 < side {
            assert(pattern(k as int) =~= prev);
        } else {
            assert(row >= 1) by (nonlinear_arith)
                requires
                    row * side + col == k1,
                    k1 >= side,
                    0 <= col < side,
            ;
            assert(site(side, row - 1, col) == k1 - side) by (nonlinear_arith)
                requires
                    row * side + col == k1,
            ;
            assert(has_burning_neighbor(side, prev, row, col));
            assert(visit(side, prev, row, col) =~= pattern(k as int));
        }
    }
}

proof fn lemma_scan_all_burning(side: int, k: nat)
    requires
        0 <= side,
        k <= side * side,
    ensures
        scan(side, all_burning(side), k) == all_burning(side),
    decreases k,
{
    if k > 0 {
        let k1 = k - 1;
        lemma_scan_all_burning(side, k1 as nat);
        lemma_row_col(side, k1);
    }
}

/// On the fully occupied grid, whose first row burns from the start, one sweep sets
/// every tree on fire, since each ignition is seen by the sites visited after it in the
/// same sweep; the next sweep changes nothing. So the grid rests after `full_depth`
/// igniting sweeps: none for a side of one, one for any larger side.
pub proof fn lemma_full_lattice_burns_in_one_sweep(side: int)
    requires
        side >= 1,
    ensures
        swept(side, full(side)) == all_burning(side),
        swept(side, all_burning(side)) == all_burning(side),
        rests_after(side, full(side), full_depth(side)),
{
    assert(side * side >= side) by (nonlinear_arith)
        requires
            side >= 1,
    ;
    lemma_scan_full(side, (side * side) as nat);
    lemma_scan_all_burning(side, (side * side) as nat);
    assert(swept(side, full(side)) =~= all_burning(side));
    let c = full(side);
    assert(sweeps(side, c, 0) == c);
    assert(sweeps(side, c, 1) == all_burning(side));
    assert(sweeps(side, c, 2) == all_burning(side));
    if side > 1 {
        assert(side * side > side) by (nonlinear_arith)
            requires
                side > 1,
        ;
        assert(c[side] == LatticePoint::Tree);
        assert(sweeps(side, c, 1) != sweeps(side, c, 0)) by {
            assert(sweeps(side, c, 1)[side] != c[side]);
        }
        assert forall|k: nat| k < 1 implies #[trigger] sweeps(side, c, k + 1) != sweeps(
            side,
            c,
            k,
        ) by {
            assert(k == 0);
        }
    } else {
        assert(c =~= all_burning(side));
        assert(sweeps(side, c, 0) == c);
    }
}

} // verus!
