//! The mathematical model of the plane.
//!
//! The executable state is mirrored by a finite partial map from integer
//! coordinates to tile views; every contract of the library is stated
//! over this map, over eight-way adjacency, over paths of lit tiles and
//! over sums of intensities taken across sets of coordinates.

use vstd::prelude::*;
use vstd::set::fold::lemma_finite_set_induct;
use vstd::set::fold::lemma_fold_empty;
use vstd::set::fold::lemma_fold_insert;

verus! {

/// View of one lit tile: its color as a character sequence and its
/// intensity.
#[verifier::ext_equal]
pub ghost struct TileView {
    pub color: Seq<char>,
    pub intensity: u32,
}

/// View of one rule requirement: at least `threshold` of the eight
/// neighbors must carry `color`.
#[verifier::ext_equal]
pub ghost struct ReqView {
    pub threshold: u8,
    pub color: Seq<char>,
}

/// View of one recoloring rule: its requirements in order, the color it
/// paints, and how often it has fired.
#[verifier::ext_equal]
pub ghost struct RuleView {
    pub reqs: Seq<ReqView>,
    pub color: Seq<char>,
    pub usage: u64,
}

/// A tile view is valid when its intensity is positive: a lit tile
/// never carries intensity zero.
pub open spec fn tile_view_valid(t: TileView) -> bool {
    t.intensity >= 1
}

/// Two coordinates are adjacent when they differ and each component
/// differs by at most one: the eight-neighbor window.
pub open spec fn adjacent(a: (int, int), b: (int, int)) -> bool {
    a != b && -1 <= b.0 - a.0 <= 1 && -1 <= b.1 - a.1 <= 1
}

/// A path is a non-empty sequence of lit coordinates in which
/// consecutive entries are adjacent.
pub open spec fn valid_path(m: Map<(int, int), TileView>, p: Seq<(int, int)>) -> bool {
    &&& p.len() >= 1
    &&& forall|i: int| 0 <= i < p.len() ==> m.contains_key(#[trigger] p[i])
    &&& forall|i: int| 0 < i < p.len() ==> adjacent(p[i - 1], #[trigger] p[i])
}

/// Every tile on the path carries the color `col`.
pub open spec fn uniform_path(
    m: Map<(int, int), TileView>,
    p: Seq<(int, int)>,
    col: Seq<char>,
) -> bool {
    forall|i: int| 0 <= i < p.len() ==> m[#[trigger] p[i]].color == col
}

/// `c` belongs to the region of `s`: some path of lit tiles leads from
/// `s` to `c`, all of the start tile's color when `homog` is set.
pub open spec fn region_reach(
    m: Map<(int, int), TileView>,
    s: (int, int),
    c: (int, int),
    homog: bool,
) -> bool {
    exists|p: Seq<(int, int)>|
        {
            &&& #[trigger] valid_path(m, p)
            &&& p.first() == s
            &&& p.last() == c
            &&& homog ==> uniform_path(m, p, m[s].color)
        }
}

/// The connected region of `s`, as a set of coordinates.
pub open spec fn region_set(m: Map<(int, int), TileView>, s: (int, int), homog: bool) -> Set<
    (int, int),
> {
    Set::new(|c: (int, int)| region_reach(m, s, c, homog))
}

/// The eight neighbor offsets, numbered.
pub open spec fn offset(d: int) -> (int, int) {
    if d == 0 {
        (-1, -1)
    } else if d == 1 {
        (-1, 0)
    } else if d == 2 {
        (-1, 1)
    } else if d == 3 {
        (0, -1)
    } else if d == 4 {
        (0, 1)
    } else if d == 5 {
        (1, -1)
    } else if d == 6 {
        (1, 0)
    } else {
        (1, 1)
    }
}

/// The `d`-th neighbor of `c`.
pub open spec fn neighbor(c: (int, int), d: int) -> (int, int) {
    (c.0 + offset(d).0, c.1 + offset(d).1)
}

/// Every numbered neighbor is adjacent, and every adjacent coordinate
/// is a numbered neighbor.
pub proof fn lemma_adjacent_offsets(a: (int, int), b: (int, int))
    ensures
        adjacent(a, b) <==> exists|d: int| 0 <= d < 8 && b == neighbor(a, d),
{
    if adjacent(a, b) {
        let dx = b.0 - a.0;
        let dy = b.1 - a.1;
        if dx == -1 && dy == -1 {
            assert(b == neighbor(a, 0));
        } else if dx == -1 && dy == 0 {
            assert(b == neighbor(a, 1));
        } else if dx == -1 && dy == 1 {
            assert(b == neighbor(a, 2));
        } else if dx == 0 && dy == -1 {
            assert(b == neighbor(a, 3));
        } else if dx == 0 && dy == 1 {
            assert(b == neighbor(a, 4));
        } else if dx == 1 && dy == -1 {
            assert(b == neighbor(a, 5));
        } else if dx == 1 && dy == 0 {
            assert(b == neighbor(a, 6));
        } else {
            assert(b == neighbor(a, 7));
        }
    }
}

/// A lit coordinate reaches itself.
pub proof fn lemma_reach_self(m: Map<(int, int), TileView>, s: (int, int), homog: bool)
    requires
        m.contains_key(s),
    ensures
        region_reach(m, s, s, homog),
{
    let p = seq![s];
    assert(valid_path(m, p));
    assert(p.first() == s && p.last() == s);
    assert(homog ==> uniform_path(m, p, m[s].color));
}

/// Reaching `c` and stepping to an adjacent lit tile `n` (of the
/// start's color, in the homogeneous case) reaches `n`.
pub proof fn lemma_reach_extend(
    m: Map<(int, int), TileView>,
    s: (int, int),
    c: (int, int),
    n: (int, int),
    homog: bool,
)
    requires
        region_reach(m, s, c, homog),
        m.contains_key(n),
        adjacent(c, n),
        homog ==> m[n].color == m[s].color,
    ensures
        region_reach(m, s, n, homog),
{
    let p = choose|p: Seq<(int, int)>|
        {
            &&& #[trigger] valid_path(m, p)
            &&& p.first() == s
            &&& p.last() == c
            &&& homog ==> uniform_path(m, p, m[s].color)
        };
    let q = p.push(n);
    assert(valid_path(m, q)) by {
        assert(forall|i: int| 0 <= i < p.len() ==> q[i] == #[trigger] p[i]);
        assert(q[q.len() - 1] == n);
        assert(adjacent(q[q.len() - 2], q[q.len() - 1]));
    }
    assert(q.first() == s && q.last() == n);
    assert(homog ==> uniform_path(m, q, m[s].color)) by {
        if homog {
            assert(forall|i: int| 0 <= i < p.len() ==> q[i] == #[trigger] p[i]);
            assert(m[q[q.len() - 1]].color == m[s].color);
        }
    }
}

/// Walking a path stays inside any set that holds the start and is
/// closed under steps to adjacent lit tiles.
proof fn lemma_path_into_closed(
    m: Map<(int, int), TileView>,
    s: (int, int),
    homog: bool,
    v: Set<(int, int)>,
    p: Seq<(int, int)>,
)
    requires
        v.contains(s),
        forall|c: (int, int), n: (int, int)|
            #![trigger v.contains(c), adjacent(c, n)]
            v.contains(c) && adjacent(c, n) && m.contains_key(n) && (homog ==> m[n].color
                == m[s].color) ==> v.contains(n),
        valid_path(m, p),
        p.first() == s,
        homog ==> uniform_path(m, p, m[s].color),
    ensures
        v.contains(p.last()),
    decreases p.len(),
{
    if p.len() == 1 {
    } else {
        let q = p.drop_last();
        assert(valid_path(m, q)) by {
            assert(forall|i: int| 0 <= i < q.len() ==> q[i] == #[trigger] p[i]);
        }
        assert(homog ==> uniform_path(m, q, m[s].color)) by {
            assert(forall|i: int| 0 <= i < q.len() ==> q[i] == #[trigger] p[i]);
        }
        lemma_path_into_closed(m, s, homog, v, q);
        assert(v.contains(p[p.len() - 2]));
        assert(adjacent(p[p.len() - 2], p[p.len() - 1]));
        assert(m.contains_key(p[p.len() - 1]));
        assert(homog ==> m[p[p.len() - 1]].color == m[s].color);
    }
}

/// Whatever the region reaches lies inside any set that holds the
/// start and is closed under steps to adjacent lit tiles.
pub proof fn lemma_reach_into_closed(
    m: Map<(int, int), TileView>,
    s: (int, int),
    homog: bool,
    v: Set<(int, int)>,
)
    requires
        v.contains(s),
        forall|c: (int, int), n: (int, int)|
            #![trigger v.contains(c), adjacent(c, n)]
            v.contains(c) && adjacent(c, n) && m.contains_key(n) && (homog ==> m[n].color
                == m[s].color) ==> v.contains(n),
    ensures
        forall|c: (int, int)| region_reach(m, s, c, homog) ==> v.contains(c),
{
    assert forall|c: (int, int)| region_reach(m, s, c, homog) implies v.contains(c) by {
        let p = choose|p: Seq<(int, int)>|
            {
                &&& #[trigger] valid_path(m, p)
                &&& p.first() == s
                &&& p.last() == c
                &&& homog ==> uniform_path(m, p, m[s].color)
            };
        lemma_path_into_closed(m, s, homog, v, p);
    }
}

/// Everything a region reaches is lit, and in the homogeneous case
/// carries the start tile's color.
pub proof fn lemma_reach_is_lit(m: Map<(int, int), TileView>, s: (int, int), homog: bool)
    ensures
        forall|c: (int, int)| #[trigger]
            region_reach(m, s, c, homog) ==> m.contains_key(c) && (homog ==> m[c].color
                == m[s].color),
{
    assert forall|c: (int, int)| #[trigger]
        region_reach(m, s, c, homog) implies m.contains_key(c) && (homog ==> m[c].color
        == m[s].color) by {
        let p = choose|p: Seq<(int, int)>|
            {
                &&& #[trigger] valid_path(m, p)
                &&& p.first() == s
                &&& p.last() == c
                &&& homog ==> uniform_path(m, p, m[s].color)
            };
        assert(m.contains_key(p[p.len() - 1]));
        assert(homog ==> m[p[p.len() - 1]].color == m[s].color);
    }
}

/// An off start tile has an empty region.
pub proof fn lemma_region_off(m: Map<(int, int), TileView>, s: (int, int), homog: bool)
    requires
        !m.contains_key(s),
    ensures
        region_set(m, s, homog) =~= Set::empty(),
{
    assert forall|c: (int, int)| !region_reach(m, s, c, homog) by {
        if region_reach(m, s, c, homog) {
            let p = choose|p: Seq<(int, int)>|
                {
                    &&& #[trigger] valid_path(m, p)
                    &&& p.first() == s
                    &&& p.last() == c
                    &&& homog ==> uniform_path(m, p, m[s].color)
                };
            assert(m.contains_key(p[0]));
        }
    }
}

/// The intensity a coordinate contributes to a sum.
pub open spec fn tile_weight(m: Map<(int, int), TileView>, c: (int, int)) -> int {
    m[c].intensity as int
}

/// The folding step for intensity sums.
pub open spec fn add_weight(m: Map<(int, int), TileView>) -> spec_fn(int, (int, int)) -> int {
    |a: int, c: (int, int)| a + tile_weight(m, c)
}

/// The sum of the intensities of the coordinates in `s`.
pub open spec fn region_sum(m: Map<(int, int), TileView>, s: Set<(int, int)>) -> int {
    s.fold(0, add_weight(m))
}

/// Intensity sums fold with a commutative step.
pub proof fn lemma_add_weight_commutative(m: Map<(int, int), TileView>)
    ensures
        vstd::set::fold::is_fun_commutative(add_weight(m)),
{
}

/// The sum over the empty set is zero.
pub proof fn lemma_region_sum_empty(m: Map<(int, int), TileView>)
    ensures
        region_sum(m, Set::empty()) == 0,
{
    lemma_add_weight_commutative(m);
    lemma_fold_empty(0int, add_weight(m));
}

/// Adding a fresh coordinate adds its weight to the sum.
pub proof fn lemma_region_sum_insert(
    m: Map<(int, int), TileView>,
    s: Set<(int, int)>,
    c: (int, int),
)
    requires
        s.finite(),
        !s.contains(c),
    ensures
        region_sum(m, s.insert(c)) == region_sum(m, s) + tile_weight(m, c),
{
    lemma_add_weight_commutative(m);
    lemma_fold_insert(s, 0int, add_weight(m), c);
}

/// Every intensity sum over a finite set lies between zero and the
/// cardinality times the largest tile intensity.
pub proof fn lemma_region_sum_bounds(m: Map<(int, int), TileView>, s: Set<(int, int)>)
    requires
        s.finite(),
    ensures
        0 <= region_sum(m, s) <= s.len() * (u32::MAX as int),
{
    let pred = |t: Set<(int, int)>|
        t.finite() ==> 0 <= region_sum(m, t) <= t.len() * (u32::MAX as int);
    assert(pred(Set::<(int, int)>::empty())) by {
        lemma_region_sum_empty(m);
    }
    assert forall|t: Set<(int, int)>, a: (int, int)|
        pred(t) && t.finite() && !t.contains(a) implies #[trigger] pred(t.insert(a)) by {
        lemma_region_sum_insert(m, t, a);
        assert(t.insert(a).len() == t.len() + 1);
        assert(0 <= tile_weight(m, a) <= u32::MAX as int);
        assert((t.len() + 1) * (u32::MAX as int) == t.len() * (u32::MAX as int) + (
        u32::MAX as int)) by (nonlinear_arith);
    }
    lemma_finite_set_induct(s, pred);
}

/// A subset's intensity sum never exceeds its superset's.
pub proof fn lemma_region_sum_subset(
    m: Map<(int, int), TileView>,
    s1: Set<(int, int)>,
    s2: Set<(int, int)>,
)
    requires
        s2.finite(),
        s1.subset_of(s2),
    ensures
        region_sum(m, s1) <= region_sum(m, s2),
    decreases s2.len(),
{
    vstd::set_lib::lemma_len_subset(s1, s2);
    if s1 =~= s2 {
    } else {
        let e = choose|e: (int, int)| s2.contains(e) && !s1.contains(e);
        lemma_region_sum_insert(m, s2.remove(e), e);
        assert(s2.remove(e).insert(e) =~= s2);
        assert(s1.subset_of(s2.remove(e)));
        lemma_region_sum_subset(m, s1, s2.remove(e));
    }
}

/// Sums depend only on the weights of the members: two maps that give
/// every member the same intensity give the set the same sum.
pub proof fn lemma_region_sum_congruence(
    m1: Map<(int, int), TileView>,
    m2: Map<(int, int), TileView>,
    s: Set<(int, int)>,
)
    requires
        s.finite(),
        forall|c: (int, int)| s.contains(c) ==> tile_weight(m1, c) == tile_weight(m2, c),
    ensures
        region_sum(m1, s) == region_sum(m2, s),
    decreases s.len(),
{
    if s.len() == 0 {
        assert(s =~= Set::empty());
        lemma_region_sum_empty(m1);
        lemma_region_sum_empty(m2);
    } else {
        let c = s.choose();
        assert(s.contains(c));
        let t = s.remove(c);
        lemma_region_sum_congruence(m1, m2, t);
        lemma_region_sum_insert(m1, t, c);
        lemma_region_sum_insert(m2, t, c);
        assert(t.insert(c) =~= s);
    }
}

} // verus!
