//! The path tools: a directional walk that accumulates intensities,
//! and a weighted shortest-path search between two tiles.

use crate::model::adjacent;
use crate::model::region_reach;
use crate::model::valid_path;
use crate::model::TileView;
use crate::plane::lemma_store_map_range;
use crate::plane::lemma_store_map_vals;
use crate::plane::Piano;
use crate::region::seq_coords;
use crate::text::split_sp;
use crate::text::split_spazi;
use vstd::prelude::*;
use vstd::string::StrSliceExecFns;

verus! {

/// The unit step a compass token names: the four cardinal directions
/// and the four diagonals, each moving exactly one grid step.
pub open spec fn dir_delta(t: Seq<char>) -> Option<(int, int)> {
    if t.len() != 2 {
        None
    } else if t[0] == 'N' && t[1] == 'N' {
        Some((0int, 1int))
    } else if t[0] == 'S' && t[1] == 'S' {
        Some((0int, -1int))
    } else if t[0] == 'E' && t[1] == 'E' {
        Some((1int, 0int))
    } else if t[0] == 'W' && t[1] == 'W' {
        Some((-1int, 0int))
    } else if t[0] == 'N' && t[1] == 'E' {
        Some((1int, 1int))
    } else if t[0] == 'N' && t[1] == 'W' {
        Some((-1int, 1int))
    } else if t[0] == 'S' && t[1] == 'E' {
        Some((1int, -1int))
    } else if t[0] == 'S' && t[1] == 'W' {
        Some((-1int, -1int))
    } else {
        None
    }
}

/// The intensity gathered after `pos` by following the tokens: each
/// step must name a direction and land on a lit tile, whose intensity
/// is added; anything else aborts the whole walk.
pub open spec fn walk_from(
    m: Map<(int, int), TileView>,
    pos: (int, int),
    toks: Seq<Seq<char>>,
) -> Option<int>
    decreases toks.len(),
{
    if toks.len() == 0 {
        Some(0int)
    } else {
        match dir_delta(toks.first()) {
            None => None,
            Some(d) => {
                let np = (pos.0 + d.0, pos.1 + d.1);
                if m.contains_key(np) {
                    match walk_from(m, np, toks.drop_first()) {
                        Some(r) => Some(m[np].intensity + r),
                        None => None,
                    }
                } else {
                    None
                }
            },
        }
    }
}

/// The whole walk's total: the start tile must be lit and contributes
/// its own intensity first.
pub open spec fn walk_total(
    m: Map<(int, int), TileView>,
    start: (int, int),
    toks: Seq<Seq<char>>,
) -> Option<int> {
    if !m.contains_key(start) {
        None
    } else {
        match walk_from(m, start, toks) {
            Some(r) => Some(m[start].intensity + r),
            None => None,
        }
    }
}

/// A successful walk never gathers a negative amount.
pub proof fn lemma_walk_from_nonneg(
    m: Map<(int, int), TileView>,
    pos: (int, int),
    toks: Seq<Seq<char>>,
)
    ensures
        walk_from(m, pos, toks) matches Some(r) ==> r >= 0,
    decreases toks.len(),
{
    if toks.len() > 0 {
        match dir_delta(toks.first()) {
            None => {},
            Some(d) => {
                lemma_walk_from_nonneg(m, (pos.0 + d.0, pos.1 + d.1), toks.drop_first());
            },
        }
    }
}

/// The cost of a path: the sum of the intensities of all its tiles,
/// the first included.
pub open spec fn path_cost(m: Map<(int, int), TileView>, p: Seq<(int, int)>) -> int
    decreases p.len(),
{
    if p.len() == 0 {
        0
    } else {
        path_cost(m, p.drop_last()) + m[p.last()].intensity
    }
}

/// A prefix of a path never costs more than the whole path.
pub proof fn lemma_path_cost_prefix(m: Map<(int, int), TileView>, p: Seq<(int, int)>, i: int)
    requires
        0 <= i <= p.len(),
    ensures
        path_cost(m, p.take(i)) <= path_cost(m, p),
    decreases p.len() - i,
{
    if i == p.len() {
        assert(p.take(i) =~= p);
    } else {
        assert(p.take(i + 1).drop_last() =~= p.take(i));
        assert(p.take(i + 1).last() == p[i]);
        lemma_path_cost_prefix(m, p, i + 1);
    }
}

/// Appending a tile adds its intensity to the cost.
pub proof fn lemma_path_cost_push(m: Map<(int, int), TileView>, p: Seq<(int, int)>, c: (int, int))
    ensures
        path_cost(m, p.push(c)) == path_cost(m, p) + m[c].intensity,
{
    assert(p.push(c).drop_last() =~= p);
    assert(p.push(c).last() == c);
}

/// The coordinates of the queue's entries, as a set.
pub open spec fn coda_coords(q: Seq<(u64, i32, i32)>) -> Set<(int, int)>
    decreases q.len(),
{
    if q.len() == 0 {
        Set::empty()
    } else {
        coda_coords(q.drop_last()).insert((q.last().1 as int, q.last().2 as int))
    }
}

/// The queue's coordinate set is finite and holds exactly the
/// entries' coordinates.
pub proof fn lemma_coda_coords(q: Seq<(u64, i32, i32)>)
    ensures
        coda_coords(q).finite(),
        forall|c: (int, int)|
            #[trigger] coda_coords(q).contains(c) <==> exists|k: int|
                0 <= k < q.len() && ((#[trigger] q[k]).1 as int, q[k].2 as int) == c,
    decreases q.len(),
{
    if q.len() == 0 {
    } else {
        lemma_coda_coords(q.drop_last());
        assert forall|c: (int, int)| #[trigger]
            coda_coords(q).contains(c) implies exists|k: int|
            0 <= k < q.len() && ((#[trigger] q[k]).1 as int, q[k].2 as int) == c by {
            if c == (q.last().1 as int, q.last().2 as int) {
                assert(((#[trigger] q[q.len() - 1]).1 as int, q[q.len() - 1].2 as int) == c);
            } else {
                let k = choose|k: int|
                    0 <= k < q.drop_last().len() && ((#[trigger] q.drop_last()[k]).1 as int,
                    q.drop_last()[k].2 as int) == c;
                assert(((#[trigger] q[k]).1 as int, q[k].2 as int) == c);
            }
        }
        assert forall|c: (int, int)|
            (exists|k: int|
                0 <= k < q.len() && ((#[trigger] q[k]).1 as int, q[k].2 as int)
                    == c) implies coda_coords(q).contains(c) by {
            let k = choose|k: int|
                0 <= k < q.len() && ((#[trigger] q[k]).1 as int, q[k].2 as int) == c;
            if k < q.len() - 1 {
                assert(((#[trigger] q.drop_last()[k]).1 as int, q.drop_last()[k].2 as int) == c);
            }
        }
    }
}

/// Removing one entry of a duplicate-free queue removes exactly its
/// coordinate.
pub proof fn lemma_coda_remove(q: Seq<(u64, i32, i32)>, r: int)
    requires
        0 <= r < q.len(),
        forall|k1: int, k2: int|
            0 <= k1 < k2 < q.len() ==> ((#[trigger] q[k1]).1 as int, q[k1].2 as int) != ((
            #[trigger] q[k2]).1 as int, q[k2].2 as int),
    ensures
        coda_coords(q.remove(r)) =~= coda_coords(q).remove((q[r].1 as int, q[r].2 as int)),
        forall|k1: int, k2: int|
            0 <= k1 < k2 < q.remove(r).len() ==> ((#[trigger] q.remove(r)[k1]).1 as int,
            q.remove(r)[k1].2 as int) != ((#[trigger] q.remove(r)[k2]).1 as int,
            q.remove(r)[k2].2 as int),
{
    let qr = q.remove(r);
    let cv = (q[r].1 as int, q[r].2 as int);
    lemma_coda_coords(q);
    lemma_coda_coords(qr);
    assert forall|c: (int, int)| #[trigger]
        coda_coords(qr).contains(c) implies coda_coords(q).remove(cv).contains(c) by {
        let k = choose|k: int| 0 <= k < qr.len() && ((#[trigger] qr[k]).1 as int, qr[k].2 as int)
            == c;
        if k < r {
            assert(((#[trigger] q[k]).1 as int, q[k].2 as int) == c);
        } else {
            assert(((#[trigger] q[k + 1]).1 as int, q[k + 1].2 as int) == c);
        }
    }
    assert forall|c: (int, int)| #[trigger]
        coda_coords(q).remove(cv).contains(c) implies coda_coords(qr).contains(c) by {
        let k = choose|k: int| 0 <= k < q.len() && ((#[trigger] q[k]).1 as int, q[k].2 as int)
            == c;
        assert(k != r);
        if k < r {
            assert(((#[trigger] qr[k]).1 as int, qr[k].2 as int) == c);
        } else {
            assert(((#[trigger] qr[k - 1]).1 as int, qr[k - 1].2 as int) == c);
        }
    }
}

/// Walking a path forward from a finalized tile: the path either
/// crosses the queue at a cost no less than its label, or ends on a
/// finalized tile at a cost no less than its label. `popped` must be
/// closed up to the frontier `qs`, never touch the target `bv`, and
/// respect the labels.
proof fn lemma_cammino(
    m: Map<(int, int), TileView>,
    av: (int, int),
    bv: (int, int),
    lab: Map<(int, int), int>,
    popped: Set<(int, int)>,
    qs: Set<(int, int)>,
    p: Seq<(int, int)>,
    i: int,
)
    requires
        valid_path(m, p),
        p.first() == av,
        0 <= i < p.len(),
        popped.contains(p[i]),
        lab[p[i]] <= path_cost(m, p.take(i + 1)),
        forall|pp: (int, int), c: (int, int)|
            #![trigger popped.contains(pp), adjacent(pp, c)]
            popped.contains(pp) && (popped.contains(c) || qs.contains(c)) && adjacent(pp, c)
                ==> lab[c] <= lab[pp] + m[c].intensity,
        forall|pp: (int, int), c: (int, int)|
            #![trigger popped.contains(pp), adjacent(pp, c)]
            popped.contains(pp) && adjacent(pp, c) && m.contains_key(c) && c != bv ==> (
            popped.contains(c) || qs.contains(c)),
        forall|pp: (int, int)| #[trigger] popped.contains(pp) ==> !adjacent(pp, bv),
    ensures
        (exists|j: int|
            0 <= j < p.len() && qs.contains(#[trigger] p[j]) && lab[p[j]] <= path_cost(
                m,
                p.take(j + 1),
            )) || (popped.contains(p.last()) && lab[p.last()] <= path_cost(m, p)),
    decreases p.len() - i,
{
    if i == p.len() - 1 {
        assert(p.take(i + 1) =~= p);
    } else {
        let v = p[i + 1];
        assert(adjacent(p[i], v));
        assert(m.contains_key(v));
        if v == bv {
            assert(false);
        } else {
            assert(popped.contains(v) || qs.contains(v));
            assert(lab[v] <= lab[p[i]] + m[v].intensity);
            assert(p.take(i + 2).drop_last() =~= p.take(i + 1));
            assert(p.take(i + 2).last() == v);
            assert(lab[v] <= path_cost(m, p.take(i + 2)));
            if qs.contains(v) {
                assert(qs.contains(#[trigger] p[i + 1]) && lab[p[i + 1]] <= path_cost(
                    m,
                    p.take(i + 2),
                ));
            } else {
                lemma_cammino(m, av, bv, lab, popped, qs, p, i + 1);
            }
        }
    }
}

/// The index of a least-distance queue entry.
fn indice_minimo(q: &Vec<(u64, i32, i32)>) -> (r: usize)
    requires
        q@.len() > 0,
    ensures
        r < q@.len(),
        forall|k: int| 0 <= k < q@.len() ==> q@[r as int].0 <= (#[trigger] q@[k]).0,
{
    let mut r: usize = 0;
    let mut k: usize = 1;
    let n = q.len();
    while k < n
        invariant
            r < k <= n,
            n == q@.len(),
            forall|j: int| 0 <= j < k ==> q@[r as int].0 <= (#[trigger] q@[j]).0,
        decreases n - k,
    {
        if q[k].0 < q[r].0 {
            r = k;
        }
        k = k + 1;
    }
    r
}

/// A compass token's reading, as machine integers.
fn direzione(t: &str) -> (r: Option<(i64, i64)>)
    ensures
        match r {
            Some(d) => dir_delta(t@) == Some((d.0 as int, d.1 as int)) && -1 <= d.0 <= 1 && -1
                <= d.1 <= 1,
            None => dir_delta(t@) is None,
        },
{
    let n = t.unicode_len();
    if n != 2 {
        return None;
    }
    let a = t.get_char(0);
    let b = t.get_char(1);
    if a == 'N' && b == 'N' {
        Some((0, 1))
    } else if a == 'S' && b == 'S' {
        Some((0, -1))
    } else if a == 'E' && b == 'E' {
        Some((1, 0))
    } else if a == 'W' && b == 'W' {
        Some((-1, 0))
    } else if a == 'N' && b == 'E' {
        Some((1, 1))
    } else if a == 'N' && b == 'W' {
        Some((-1, 1))
    } else if a == 'S' && b == 'E' {
        Some((1, -1))
    } else if a == 'S' && b == 'W' {
        Some((-1, -1))
    } else {
        None
    }
}

impl Piano {
    /// Walks from `(x, y)` along the space-separated compass tokens of
    /// `s`, accumulating the intensity of the start tile and of every
    /// tile stepped onto. An off start tile, an unknown token, a step
    /// onto an off tile, or a total beyond `u64` aborts the whole walk
    /// with no result.
    pub fn pista(&self, x: i32, y: i32, s: String) -> (r: Option<u64>)
        requires
            self.wf(),
        ensures
            r == (match walk_total(self.tiles(), (x as int, y as int), split_sp(s@)) {
                Some(t) => if t <= u64::MAX as int {
                    Some(t as u64)
                } else {
                    None
                },
                None => None,
            }),
    {
        let ghost m = self.tiles();
        let ghost c0 = (x as int, y as int);
        let toks = split_spazi(s.as_str());
        let ghost vt = toks.deep_view();
        let idx0 = match self.trova(x, y) {
            Some(i) => i,
            None => {
                return None;
            },
        };
        proof {
            crate::plane::lemma_store_map_keys(self.piastrelle@);
            lemma_store_map_vals(self.piastrelle@);
            assert((#[trigger] self.piastrelle@[idx0 as int]).0@ == c0);
            assert(m.contains_key(c0));
            assert(m[c0] == self.piastrelle@[idx0 as int].1@);
        }
        let mut totale: u64 = self.piastrelle[idx0].1.intensita as u64;
        let mut cx: i128 = x as i128;
        let mut cy: i128 = y as i128;
        let n = toks.len();
        let mut k: usize = 0;
        proof {
            assert(vt.skip(0) =~= vt);
        }
        while k < n
            invariant
                k <= n,
                self.wf(),
                m == self.tiles(),
                c0 == (x as int, y as int),
                m.contains_key(c0),
                vt == split_sp(s@),
                vt == toks.deep_view(),
                n == toks@.len(),
                n == vt.len(),
                -0x8000_0000i128 - k as i128 <= cx <= 0x8000_0000i128 + k as i128,
                -0x8000_0000i128 - k as i128 <= cy <= 0x8000_0000i128 + k as i128,
                ({
                    let cp = (cx as int, cy as int);
                    match walk_from(m, cp, vt.skip(k as int)) {
                        Some(rest) => walk_total(m, c0, vt) == Some(totale as int + rest),
                        None => walk_total(m, c0, vt) is None,
                    }
                }),
            decreases n - k,
        {
            let ghost cp = (cx as int, cy as int);
            proof {
                assert(vt[k as int] == toks@[k as int]@);
                assert(vt.skip(k as int).first() == vt[k as int]);
                assert(vt.skip(k as int).drop_first() =~= vt.skip(k as int + 1));
            }
            let delta = match direzione(toks[k].as_str()) {
                Some(d) => d,
                None => {
                    return None;
                },
            };
            cx = cx + delta.0 as i128;
            cy = cy + delta.1 as i128;
            let ghost np = (cx as int, cy as int);
            let dentro = cx >= i32::MIN as i128 && cx <= i32::MAX as i128 && cy >= i32::MIN as i128
                && cy <= i32::MAX as i128;
            if !dentro {
                proof {
                    lemma_store_map_range(self.piastrelle@);
                }
                return None;
            }
            let idx = match self.trova(cx as i32, cy as i32) {
                Some(i) => i,
                None => {
                    return None;
                },
            };
            proof {
                crate::plane::lemma_store_map_keys(self.piastrelle@);
                lemma_store_map_vals(self.piastrelle@);
                assert((#[trigger] self.piastrelle@[idx as int]).0@ == np);
                assert(m.contains_key(np));
                assert(m[np] == self.piastrelle@[idx as int].1@);
            }
            let w = self.piastrelle[idx].1.intensita;
            if totale > u64::MAX - w as u64 {
                proof {
                    lemma_walk_from_nonneg(m, np, vt.skip(k as int + 1));
                }
                return None;
            }
            totale = totale + w as u64;
            k = k + 1;
        }
        proof {
            assert(vt.skip(n as int) =~= Seq::<Seq<char>>::empty());
        }
        Some(totale)
    }

    /// The least total intensity of a path of lit tiles from
    /// `(x1, y1)` to `(x2, y2)` under eight-way adjacency, the start
    /// tile's own intensity included; `None` when either endpoint is
    /// off or no path of lit tiles connects them.
    #[verifier::rlimit(100)]
    #[verifier::loop_isolation(false)]
    pub fn lung(&self, x1: i32, y1: i32, x2: i32, y2: i32) -> (r: Option<u64>)
        requires
            self.wf(),
        ensures
            ({
                let m = self.tiles();
                let av = (x1 as int, y1 as int);
                let bv = (x2 as int, y2 as int);
                &&& (r is Some <==> m.contains_key(av) && m.contains_key(bv) && region_reach(
                    m,
                    av,
                    bv,
                    false,
                ))
                &&& (r matches Some(d) ==> (exists|p: Seq<(int, int)>|
                    #[trigger] valid_path(m, p) && p.first() == av && p.last() == bv && path_cost(
                        m,
                        p,
                    ) == d as int) && (forall|p: Seq<(int, int)>|
                    #[trigger] valid_path(m, p) && p.first() == av && p.last() == bv ==> path_cost(
                        m,
                        p,
                    ) >= d as int))
            }),
    {
        let ghost m = self.tiles();
        let ghost av = (x1 as int, y1 as int);
        let ghost bv = (x2 as int, y2 as int);
        let idx_a = match self.trova(x1, y1) {
            Some(i) => i,
            None => {
                return None;
            },
        };
        let idx_b = match self.trova(x2, y2) {
            Some(i) => i,
            None => {
                return None;
            },
        };
        proof {
            crate::plane::lemma_store_map_keys(self.piastrelle@);
            lemma_store_map_vals(self.piastrelle@);
            crate::plane::lemma_store_map_valid(self.piastrelle@);
            assert((#[trigger] self.piastrelle@[idx_a as int]).0@ == av);
            assert((#[trigger] self.piastrelle@[idx_b as int]).0@ == bv);
            assert(m.contains_key(av) && m.contains_key(bv));
            assert(m[av] == self.piastrelle@[idx_a as int].1@);
        }
        let w_a = self.piastrelle[idx_a].1.intensita;
        if x1 == x2 && y1 == y2 {
            proof {
                crate::model::lemma_reach_self(m, av, false);
                let p0 = seq![av];
                assert(valid_path(m, p0));
                assert(p0.drop_last() =~= Seq::<(int, int)>::empty());
                assert(path_cost(m, p0.drop_last()) == 0);
                assert(p0.last() == av);
                assert(path_cost(m, p0) == m[av].intensity);
                assert forall|p: Seq<(int, int)>|
                    #[trigger] valid_path(m, p) && p.first() == av && p.last()
                        == bv implies path_cost(m, p) >= w_a as int by {
                    lemma_path_cost_prefix(m, p, 1);
                    assert(p.take(1).drop_last() =~= Seq::<(int, int)>::empty());
                    assert(path_cost(m, p.take(1).drop_last()) == 0);
                    assert(p.take(1).last() == p[0]);
                    assert(path_cost(m, p.take(1)) == m[p[0]].intensity);
                }
            }
            return Some(w_a as u64);
        }
        let mut coda: Vec<(u64, i32, i32)> = Vec::new();
        let mut visitati: Vec<crate::plane::Piastrella> = Vec::new();
        let ghost mut lab: Map<(int, int), int> = Map::empty().insert(av, w_a as int);
        let ghost mut popped: Set<(int, int)> = Set::empty();
        proof {
            assert(coda_coords(coda@) =~= Set::empty());
            assert(seq_coords(visitati@) =~= Set::empty());
        }
        coda.push((w_a as u64, x1, y1));
        visitati.push(crate::plane::Piastrella { x: x1, y: y1 });
        proof {
            assert(coda@.drop_last() =~= Seq::<(u64, i32, i32)>::empty());
            assert(visitati@.drop_last() =~= Seq::<crate::plane::Piastrella>::empty());
            assert(coda_coords(coda@) =~= Set::empty().insert(av));
            assert(seq_coords(visitati@) =~= Set::empty().insert(av));
            let p0 = seq![av];
            assert(valid_path(m, p0));
            assert(p0.drop_last() =~= Seq::<(int, int)>::empty());
            assert(path_cost(m, p0.drop_last()) == 0);
            assert(p0.last() == av);
            assert(path_cost(m, p0) == m[av].intensity);
            crate::model::lemma_region_sum_empty(m);
            crate::model::lemma_region_sum_insert(m, Set::empty(), av);
            self.lemma_tiles_props();
            vstd::set_lib::lemma_len_subset(seq_coords(visitati@), m.dom());
            assert forall|p: Seq<(int, int)>|
                #![trigger valid_path(m, p)]
                valid_path(m, p) && p.first() == av implies (exists|j: int|
                0 <= j < p.len() && coda_coords(coda@).contains(#[trigger] p[j]) && lab[p[j]]
                    <= path_cost(m, p.take(j + 1))) || (popped.contains(p.last()) && lab[p.last()]
                <= path_cost(m, p)) by {
                assert(p.take(1).drop_last() =~= Seq::<(int, int)>::empty());
                assert(path_cost(m, p.take(1).drop_last()) == 0);
                assert(p.take(1).last() == p[0]);
                assert(path_cost(m, p.take(1)) == m[p[0]].intensity);
                assert(coda_coords(coda@).contains(#[trigger] p[0]) && lab[p[0]] <= path_cost(
                    m,
                    p.take(1),
                ));
            }
        }
        while coda.len() > 0
            invariant
                forall|i: int, j: int|
                    0 <= i < j < visitati@.len() ==> (#[trigger] visitati@[i])@ != (
                    #[trigger] visitati@[j])@,
                forall|k1: int, k2: int|
                    0 <= k1 < k2 < coda@.len() ==> ((#[trigger] coda@[k1]).1 as int,
                    coda@[k1].2 as int) != ((#[trigger] coda@[k2]).1 as int, coda@[k2].2 as int),
                forall|c: (int, int)|
                    #[trigger] seq_coords(visitati@).contains(c) <==> (coda_coords(coda@).contains(
                        c,
                    ) || popped.contains(c)),
                forall|c: (int, int)|
                    !(#[trigger] coda_coords(coda@).contains(c) && popped.contains(c)),
                seq_coords(visitati@).contains(av),
                !seq_coords(visitati@).contains(bv),
                forall|c: (int, int)|
                    #[trigger] seq_coords(visitati@).contains(c) ==> m.contains_key(c)
                        && lab.contains_key(c) && 0 <= lab[c] <= crate::model::region_sum(
                        m,
                        popped.insert(c),
                    ),
                popped.finite(),
                forall|c: (int, int)| #[trigger] popped.contains(c) ==> m.contains_key(c),
                lab[av] == m[av].intensity,
                forall|k: int|
                    0 <= k < coda@.len() ==> lab[((#[trigger] coda@[k]).1 as int,
                    coda@[k].2 as int)] == coda@[k].0 as int,
                forall|c: (int, int)|
                    #[trigger] seq_coords(visitati@).contains(c) ==> exists|p: Seq<(int, int)>|
                        #[trigger] valid_path(m, p) && p.first() == av && p.last() == c
                            && path_cost(m, p) == lab[c],
                forall|c1: (int, int), c2: (int, int)|
                    #![trigger popped.contains(c1), coda_coords(coda@).contains(c2)]
                    popped.contains(c1) && coda_coords(coda@).contains(c2) ==> lab[c1] <= lab[c2],
                forall|c: (int, int)|
                    #[trigger] seq_coords(visitati@).contains(c) && c != av ==> exists|
                        pp: (int, int),
                    |
                        #[trigger] popped.contains(pp) && adjacent(pp, c) && lab[c] == lab[pp]
                            + m[c].intensity,
                forall|pp: (int, int), c: (int, int)|
                    #![trigger popped.contains(pp), adjacent(pp, c)]
                    popped.contains(pp) && seq_coords(visitati@).contains(c) && adjacent(pp, c)
                        ==> lab[c] <= lab[pp] + m[c].intensity,
                forall|pp: (int, int), c: (int, int)|
                    #![trigger popped.contains(pp), adjacent(pp, c)]
                    popped.contains(pp) && adjacent(pp, c) && m.contains_key(c) && c != bv
                        ==> seq_coords(visitati@).contains(c),
                forall|pp: (int, int)| #[trigger] popped.contains(pp) ==> !adjacent(pp, bv),
                forall|p: Seq<(int, int)>|
                    #![trigger valid_path(m, p)]
                    valid_path(m, p) && p.first() == av ==> (exists|j: int|
                        0 <= j < p.len() && coda_coords(coda@).contains(#[trigger] p[j]) && lab[
                            p[j]
                        ] <= path_cost(m, p.take(j + 1))) || (popped.contains(p.last()) && lab[
                        p.last()
                    ] <= path_cost(m, p)),
                seq_coords(visitati@).len() <= m.dom().len(),
            decreases m.dom().len() - seq_coords(visitati@).len(), coda@.len(),
        {
            let ghost lab0 = lab;
            let ghost popped0 = popped;
            let ghost q0 = coda@;
            let ghost v0 = visitati@;
            let r = indice_minimo(&coda);
            let e = coda.remove(r);
            let ghost cv = (e.1 as int, e.2 as int);
            proof {
                lemma_coda_coords(q0);
                lemma_coda_remove(q0, r as int);
                assert(((#[trigger] q0[r as int]).1 as int, q0[r as int].2 as int) == cv);
                assert(coda_coords(q0).contains(cv));
                assert(lab[cv] == e.0 as int);
                assert(seq_coords(v0).contains(cv));
                popped = popped.insert(cv);
                assert forall|c2: (int, int)| #[trigger]
                    coda_coords(q0).contains(c2) implies lab[cv] <= lab[c2] by {
                    let k = choose|k: int|
                        0 <= k < q0.len() && ((#[trigger] q0[k]).1 as int, q0[k].2 as int) == c2;
                    assert(lab[((#[trigger] q0[k]).1 as int, q0[k].2 as int)] == q0[k].0 as int);
                    assert(q0[r as int].0 <= (#[trigger] q0[k]).0);
                }
                assert forall|c2: (int, int)| #[trigger]
                    coda_coords(coda@).contains(c2) implies lab[cv] <= lab[c2] by {
                    assert(coda_coords(q0).contains(c2));
                }
                assert forall|pp: (int, int)| #[trigger]
                    popped0.contains(pp) implies lab[pp] <= lab[cv] by {
                    assert(coda_coords(q0).contains(cv));
                }
                assert forall|c: (int, int)|
                    seq_coords(v0).contains(c) && adjacent(cv, c) implies lab[c] <= lab[cv]
                    + m[c].intensity by {
                    if c == av {
                        assert(lab[av] == m[av].intensity);
                        assert(lab[cv] >= 0);
                    } else {
                        let pp = choose|pp: (int, int)|
                            #[trigger] popped0.contains(pp) && adjacent(pp, c) && lab[c] == lab[pp]
                                + m[c].intensity;
                        assert(lab[pp] <= lab[cv]);
                    }
                }
                assert forall|c: (int, int)|
                    seq_coords(v0).contains(c) && c != av implies exists|pp: (int, int)|
                    #[trigger] popped.contains(pp) && adjacent(pp, c) && lab[c] == lab[pp]
                        + m[c].intensity by {
                    let pp = choose|pp: (int, int)|
                        #[trigger] popped0.contains(pp) && adjacent(pp, c) && lab[c] == lab[pp]
                            + m[c].intensity;
                    assert(popped.contains(pp) && adjacent(pp, c) && lab[c] == lab[pp]
                        + m[c].intensity);
                }
                assert forall|c: (int, int)|
                    #[trigger] seq_coords(v0).contains(c) implies 0 <= lab[c]
                    <= crate::model::region_sum(m, popped.insert(c)) by {
                    crate::model::lemma_region_sum_subset(
                        m,
                        popped0.insert(c),
                        popped.insert(c),
                    );
                }
            }
            let mut d: usize = 0;
            while d < 8
                invariant
                    d <= 8,
                    e.0 as int == lab[cv],
                    !coda_coords(coda@).contains(cv),
                    forall|i: int, j: int|
                        0 <= i < j < visitati@.len() ==> (#[trigger] visitati@[i])@ != (
                        #[trigger] visitati@[j])@,
                    forall|k1: int, k2: int|
                        0 <= k1 < k2 < coda@.len() ==> ((#[trigger] coda@[k1]).1 as int,
                        coda@[k1].2 as int) != ((#[trigger] coda@[k2]).1 as int,
                        coda@[k2].2 as int),
                    forall|c: (int, int)|
                        #[trigger] seq_coords(visitati@).contains(c) <==> (coda_coords(
                            coda@,
                        ).contains(c) || popped.contains(c)),
                    forall|c: (int, int)|
                        !(#[trigger] coda_coords(coda@).contains(c) && popped.contains(c)),
                    seq_coords(visitati@).contains(av),
                    !seq_coords(visitati@).contains(bv),
                    forall|c: (int, int)|
                        #[trigger] seq_coords(visitati@).contains(c) ==> m.contains_key(c)
                            && lab.contains_key(c) && 0 <= lab[c] <= crate::model::region_sum(
                            m,
                            popped.insert(c),
                        ),
                    lab[av] == m[av].intensity,
                    forall|k: int|
                        0 <= k < coda@.len() ==> lab[((#[trigger] coda@[k]).1 as int,
                        coda@[k].2 as int)] == coda@[k].0 as int,
                    forall|c: (int, int)|
                        #[trigger] seq_coords(visitati@).contains(c) ==> exists|
                            p: Seq<(int, int)>,
                        |
                            #[trigger] valid_path(m, p) && p.first() == av && p.last() == c
                                && path_cost(m, p) == lab[c],
                    forall|c1: (int, int), c2: (int, int)|
                        #![trigger popped.contains(c1), coda_coords(coda@).contains(c2)]
                        popped.contains(c1) && coda_coords(coda@).contains(c2) ==> lab[c1] <= lab[
                            c2
                        ],
                    forall|pp: (int, int)| #[trigger] popped.contains(pp) ==> lab[pp] <= lab[cv],
                    forall|c: (int, int)|
                        #[trigger] seq_coords(visitati@).contains(c) && c != av ==> exists|
                            pp: (int, int),
                        |
                            #[trigger] popped.contains(pp) && adjacent(pp, c) && lab[c] == lab[pp]
                                + m[c].intensity,
                    forall|pp: (int, int), c: (int, int)|
                        #![trigger popped.contains(pp), adjacent(pp, c)]
                        popped.contains(pp) && seq_coords(visitati@).contains(c) && adjacent(pp, c)
                            ==> lab[c] <= lab[pp] + m[c].intensity,
                    forall|dd: int|
                        0 <= dd < d ==> ((m.contains_key(#[trigger] crate::model::neighbor(cv, dd))
                            && crate::model::neighbor(cv, dd) != bv) ==> seq_coords(
                            visitati@,
                        ).contains(crate::model::neighbor(cv, dd))),
                    forall|dd: int|
                        0 <= dd < d ==> #[trigger] crate::model::neighbor(cv, dd) != bv,
                    forall|c: (int, int)|
                        #[trigger] seq_coords(v0).contains(c) ==> seq_coords(visitati@).contains(
                            c,
                        ) && lab.contains_key(c) && lab[c] == lab0[c],
                    forall|c: (int, int)|
                        #[trigger] seq_coords(visitati@).contains(c) && !seq_coords(v0).contains(c)
                            ==> lab[c] == lab[cv] + m[c].intensity && adjacent(cv, c)
                            && m.contains_key(c) && c != bv && coda_coords(coda@).contains(c),
                    forall|c: (int, int)|
                        #[trigger] coda_coords(q0).contains(c) && c != cv ==> coda_coords(
                            coda@,
                        ).contains(c),
                    forall|c: (int, int)| #[trigger] coda_coords(q0).contains(c) ==> lab[cv]
                        <= lab0[c],
                    seq_coords(visitati@).len() <= m.dom().len(),
                    seq_coords(v0).len() <= seq_coords(visitati@).len(),
                    coda@.len() == q0.len() - 1 + (seq_coords(visitati@).len() - seq_coords(
                        v0,
                    ).len()),
                decreases 8 - d,
            {
                let delta = crate::region::scarto(d);
                let nx = e.1 as i64 + delta.0;
                let ny = e.2 as i64 + delta.1;
                let ghost nb = crate::model::neighbor(cv, d as int);
                proof {
                    assert(nb == (nx as int, ny as int));
                    assert(adjacent(cv, nb)) by {
                        assert(crate::model::offset(d as int) != (0int, 0int));
                    }
                }
                match self.cerca_larga(nx, ny) {
                    Some(j) => {
                        proof {
                            crate::plane::lemma_store_map_keys(self.piastrelle@);
                            lemma_store_map_vals(self.piastrelle@);
                            assert((#[trigger] self.piastrelle@[j as int]).0@ == nb);
                            assert(m.contains_key(nb));
                            assert(m[nb] == self.piastrelle@[j as int].1@);
                        }
                        let w = self.piastrelle[j].1.intensita;
                        if nx == x2 as i64 && ny == y2 as i64 {
                            proof {
                                assert(nb == bv);
                                assert((e.0 as int) + (w as int) < (u64::MAX as int)) by {
                                    assert(popped.insert(cv) =~= popped);
                                    assert(lab[cv] <= crate::model::region_sum(m, popped));
                                    assert(!popped.contains(bv));
                                    crate::model::lemma_region_sum_insert(m, popped, bv);
                                    crate::model::lemma_region_sum_subset(
                                        m,
                                        popped.insert(bv),
                                        m.dom(),
                                    );
                                    crate::model::lemma_region_sum_bounds(m, m.dom());
                                    assert(m.dom().len() * (u32::MAX as int) <= 0xFFFF_FFFFint * (
                                    u32::MAX as int)) by (nonlinear_arith)
                                        requires
                                            m.dom().len() <= 0xFFFF_FFFFint,
                                    ;
                                    assert(0xFFFF_FFFFint * (u32::MAX as int) + (u32::MAX as int)
                                        < u64::MAX as int) by (nonlinear_arith);
                                }
                            }
                            let d_ret = e.0 + w as u64;
                            proof {
                                assert(seq_coords(visitati@).contains(cv));
                                let ps = choose|p: Seq<(int, int)>|
                                    #[trigger] valid_path(m, p) && p.first() == av && p.last()
                                        == cv && path_cost(m, p) == lab[cv];
                                let pb = ps.push(bv);
                                assert(valid_path(m, pb)) by {
                                    assert(forall|i: int|
                                        0 <= i < ps.len() ==> pb[i] == #[trigger] ps[i]);
                                    assert(pb[pb.len() - 1] == bv);
                                    assert(adjacent(pb[pb.len() - 2], pb[pb.len() - 1]));
                                }
                                lemma_path_cost_push(m, ps, bv);
                                assert(pb.first() == av && pb.last() == bv);
                                assert(path_cost(m, pb) == d_ret as int);
                                assert(region_reach(m, av, bv, false));
                                lemma_target_min(m, av, bv, lab0, popped0, coda_coords(q0),
                                    seq_coords(v0), cv);
                                assert(lab0[cv] == lab[cv]);
                            }
                            return Some(d_ret);
                        }
                        let gia = crate::region::contiene(&visitati, nx, ny);
                        if !gia {
                            proof {
                                crate::plane::lemma_store_map_range(self.piastrelle@);
                                assert(i32::MIN <= nx as int <= i32::MAX);
                                assert(i32::MIN <= ny as int <= i32::MAX);
                                assert((e.0 as int) + (w as int) < (u64::MAX as int)) by {
                                    assert(popped.insert(cv) =~= popped);
                                    assert(lab[cv] <= crate::model::region_sum(m, popped));
                                    assert(!popped.contains(nb));
                                    crate::model::lemma_region_sum_insert(m, popped, nb);
                                    crate::model::lemma_region_sum_subset(
                                        m,
                                        popped.insert(nb),
                                        m.dom(),
                                    );
                                    crate::model::lemma_region_sum_bounds(m, m.dom());
                                    assert(m.dom().len() * (u32::MAX as int) <= 0xFFFF_FFFFint * (
                                    u32::MAX as int)) by (nonlinear_arith)
                                        requires
                                            m.dom().len() <= 0xFFFF_FFFFint,
                                    ;
                                    assert(0xFFFF_FFFFint * (u32::MAX as int) + (u32::MAX as int)
                                        < u64::MAX as int) by (nonlinear_arith);
                                }
                            }
                            let nuovo = crate::plane::Piastrella { x: nx as i32, y: ny as i32 };
                            let ghost vis1 = visitati@;
                            let ghost cq1 = coda@;
                            visitati.push(nuovo);
                            coda.push((e.0 + w as u64, nx as i32, ny as i32));
                            proof {
                                assert(visitati@.drop_last() =~= vis1);
                                assert(coda@.drop_last() =~= cq1);
                                assert(nuovo@ == nb);
                                assert(seq_coords(visitati@) == seq_coords(vis1).insert(nb));
                                assert(coda_coords(coda@) == coda_coords(cq1).insert(nb));
                                crate::region::lemma_seq_coords(vis1);
                                crate::region::lemma_seq_coords(visitati@);
                                lemma_coda_coords(cq1);
                                lemma_coda_coords(coda@);
                                assert(seq_coords(vis1).contains(cv));
                                let ps = choose|p: Seq<(int, int)>|
                                    #[trigger] valid_path(m, p) && p.first() == av && p.last()
                                        == cv && path_cost(m, p) == lab[cv];
                                assert(!seq_coords(vis1).contains(nb));
                                assert(cv != nb);
                                lab = lab.insert(nb, lab[cv] + m[nb].intensity as int);
                                assert(lab[nb] == (e.0 as int) + (w as int));
                                assert(forall|c: (int, int)|
                                    c != nb ==> lab[c] == lab.remove(nb)[c]);
                                let pn = ps.push(nb);
                                assert(valid_path(m, pn)) by {
                                    assert(forall|i: int|
                                        0 <= i < ps.len() ==> pn[i] == #[trigger] ps[i]);
                                    assert(pn[pn.len() - 1] == nb);
                                    assert(adjacent(pn[pn.len() - 2], pn[pn.len() - 1]));
                                }
                                lemma_path_cost_push(m, ps, nb);
                                assert(pn.first() == av && pn.last() == nb && path_cost(m, pn)
                                    == lab[nb]);
                                assert forall|pp: (int, int)|
                                    popped0.contains(pp) implies !adjacent(pp, nb) by {
                                    if adjacent(pp, nb) {
                                        assert(nb != bv);
                                        assert(seq_coords(v0).contains(nb));
                                        assert(seq_coords(vis1).contains(nb));
                                    }
                                }
                                assert(crate::model::region_sum(m, popped) + m[nb].intensity
                                    == crate::model::region_sum(m, popped.insert(nb))) by {
                                    assert(!popped.contains(nb));
                                    crate::model::lemma_region_sum_insert(m, popped, nb);
                                }
                                assert(seq_coords(vis1).contains(cv));
                                assert(popped.insert(cv) =~= popped);
                                assert(lab[cv] <= crate::model::region_sum(m, popped));
                                vstd::set_lib::lemma_len_subset(
                                    seq_coords(visitati@),
                                    m.dom(),
                                );
                            }
                        }
                    },
                    None => {},
                }
                d = d + 1;
            }
            proof {
                assert forall|pp: (int, int), c: (int, int)|
                    #![trigger popped.contains(pp), adjacent(pp, c)]
                    popped.contains(pp) && adjacent(pp, c) && m.contains_key(c) && c
                        != bv implies seq_coords(visitati@).contains(c) by {
                    if pp == cv {
                        crate::model::lemma_adjacent_offsets(cv, c);
                        let dd = choose|dd: int|
                            0 <= dd < 8 && c == crate::model::neighbor(cv, dd);
                        assert(m.contains_key(#[trigger] crate::model::neighbor(cv, dd)));
                    } else {
                        assert(popped0.contains(pp));
                        assert(seq_coords(v0).contains(c));
                    }
                }
                assert forall|pp: (int, int)| #[trigger]
                    popped.contains(pp) implies !adjacent(pp, bv) by {
                    if pp == cv && adjacent(cv, bv) {
                        crate::model::lemma_adjacent_offsets(cv, bv);
                        let dd = choose|dd: int|
                            0 <= dd < 8 && bv == crate::model::neighbor(cv, dd);
                        assert(crate::model::neighbor(cv, dd) != bv);
                    }
                }
                lemma_invf_step(
                    m,
                    av,
                    bv,
                    lab0,
                    lab,
                    popped0,
                    popped,
                    coda_coords(q0),
                    coda_coords(coda@),
                    seq_coords(v0),
                    cv,
                );
            }
        }
        proof {
            assert(coda_coords(coda@) =~= Set::empty());
            assert(!region_reach(m, av, bv, false)) by {
                if region_reach(m, av, bv, false) {
                    let p = choose|p: Seq<(int, int)>|
                        {
                            &&& #[trigger] valid_path(m, p)
                            &&& p.first() == av
                            &&& p.last() == bv
                            &&& false ==> crate::model::uniform_path(m, p, m[av].color)
                        };
                    assert(valid_path(m, p) && p.first() == av);
                    assert((exists|j: int|
                        0 <= j < p.len() && coda_coords(coda@).contains(#[trigger] p[j]) && lab[
                            p[j]
                        ] <= path_cost(m, p.take(j + 1))) || (popped.contains(p.last()) && lab[
                        p.last()] <= path_cost(m, p)));
                    if popped.contains(p.last()) {
                        assert(seq_coords(visitati@).contains(bv));
                    }
                }
            }
        }
        None
    }
}

/// Any path that starts at `av` and ends on the target costs at least
/// the least queued label plus the target's intensity, as long as the
/// frontier property holds, no finalized tile touches the target, and
/// the target is unvisited.
proof fn lemma_target_min(
    m: Map<(int, int), TileView>,
    av: (int, int),
    bv: (int, int),
    lab0: Map<(int, int), int>,
    popped0: Set<(int, int)>,
    q0: Set<(int, int)>,
    v0: Set<(int, int)>,
    cv: (int, int),
)
    requires
        forall|p: Seq<(int, int)>|
            #![trigger valid_path(m, p)]
            valid_path(m, p) && p.first() == av ==> (exists|j: int|
                0 <= j < p.len() && q0.contains(#[trigger] p[j]) && lab0[p[j]] <= path_cost(
                    m,
                    p.take(j + 1),
                )) || (popped0.contains(p.last()) && lab0[p.last()] <= path_cost(m, p)),
        forall|c: (int, int)| #[trigger] q0.contains(c) ==> lab0[cv] <= lab0[c],
        forall|c: (int, int)| #[trigger] q0.contains(c) ==> v0.contains(c),
        forall|c: (int, int)| #[trigger] popped0.contains(c) ==> v0.contains(c),
        !v0.contains(bv),
    ensures
        forall|p: Seq<(int, int)>|
            #[trigger] valid_path(m, p) && p.first() == av && p.last() == bv ==> path_cost(m, p)
                >= lab0[cv] + m[bv].intensity,
{
    assert forall|p: Seq<(int, int)>|
        #[trigger] valid_path(m, p) && p.first() == av && p.last() == bv implies path_cost(m, p)
        >= lab0[cv] + m[bv].intensity by {
        assert((exists|j: int|
            0 <= j < p.len() && q0.contains(#[trigger] p[j]) && lab0[p[j]] <= path_cost(
                m,
                p.take(j + 1),
            )) || (popped0.contains(p.last()) && lab0[p.last()] <= path_cost(m, p)));
        if popped0.contains(p.last()) && lab0[p.last()] <= path_cost(m, p) {
            assert(v0.contains(bv));
            assert(false);
        } else {
            let j = choose|j: int|
                0 <= j < p.len() && q0.contains(#[trigger] p[j]) && lab0[p[j]] <= path_cost(
                    m,
                    p.take(j + 1),
                );
            assert(v0.contains(p[j]));
            assert(p[j] != bv);
            assert(j < p.len() - 1);
            assert(lab0[p[j]] >= lab0[cv]);
            assert(path_cost(m, p) == path_cost(m, p.drop_last()) + m[bv].intensity) by {
                assert(p.drop_last().push(p.last()) =~= p);
                lemma_path_cost_push(m, p.drop_last(), p.last());
            }
            assert(path_cost(m, p.drop_last()) >= path_cost(m, p.take(j + 1))) by {
                assert(p.drop_last().take(j + 1) =~= p.take(j + 1));
                lemma_path_cost_prefix(m, p.drop_last(), j + 1);
            }
        }
    }
}

/// One step of the search keeps the frontier property: after the
/// least entry moves from the queue to the finalized set and its
/// fresh neighbors join the queue, every path from the start still
/// crosses the queue below its cost or ends finalized below its cost.
proof fn lemma_invf_step(
    m: Map<(int, int), TileView>,
    av: (int, int),
    bv: (int, int),
    lab0: Map<(int, int), int>,
    lab: Map<(int, int), int>,
    popped0: Set<(int, int)>,
    popped: Set<(int, int)>,
    q0: Set<(int, int)>,
    qn: Set<(int, int)>,
    v0: Set<(int, int)>,
    cv: (int, int),
)
    requires
        forall|p: Seq<(int, int)>|
            #![trigger valid_path(m, p)]
            valid_path(m, p) && p.first() == av ==> (exists|j: int|
                0 <= j < p.len() && q0.contains(#[trigger] p[j]) && lab0[p[j]] <= path_cost(
                    m,
                    p.take(j + 1),
                )) || (popped0.contains(p.last()) && lab0[p.last()] <= path_cost(m, p)),
        popped == popped0.insert(cv),
        v0.contains(cv),
        forall|c: (int, int)| #[trigger] q0.contains(c) ==> v0.contains(c),
        forall|c: (int, int)| #[trigger] popped0.contains(c) ==> v0.contains(c),
        forall|c: (int, int)| #[trigger] v0.contains(c) ==> lab.contains_key(c) && lab[c] == lab0[c],
        forall|c: (int, int)| #[trigger] q0.contains(c) && c != cv ==> qn.contains(c),
        forall|pp: (int, int), c: (int, int)|
            #![trigger popped.contains(pp), adjacent(pp, c)]
            popped.contains(pp) && (popped.contains(c) || qn.contains(c)) && adjacent(pp, c)
                ==> lab[c] <= lab[pp] + m[c].intensity,
        forall|pp: (int, int), c: (int, int)|
            #![trigger popped.contains(pp), adjacent(pp, c)]
            popped.contains(pp) && adjacent(pp, c) && m.contains_key(c) && c != bv ==> (
            popped.contains(c) || qn.contains(c)),
        forall|pp: (int, int)| #[trigger] popped.contains(pp) ==> !adjacent(pp, bv),
    ensures
        forall|p: Seq<(int, int)>|
            #![trigger valid_path(m, p)]
            valid_path(m, p) && p.first() == av ==> (exists|j: int|
                0 <= j < p.len() && qn.contains(#[trigger] p[j]) && lab[p[j]] <= path_cost(
                    m,
                    p.take(j + 1),
                )) || (popped.contains(p.last()) && lab[p.last()] <= path_cost(m, p)),
{
    assert forall|p: Seq<(int, int)>|
        #![trigger valid_path(m, p)]
        valid_path(m, p) && p.first() == av implies (exists|j: int|
        0 <= j < p.len() && qn.contains(#[trigger] p[j]) && lab[p[j]] <= path_cost(
            m,
            p.take(j + 1),
        )) || (popped.contains(p.last()) && lab[p.last()] <= path_cost(m, p)) by {
        assert((exists|j: int|
            0 <= j < p.len() && q0.contains(#[trigger] p[j]) && lab0[p[j]] <= path_cost(
                m,
                p.take(j + 1),
            )) || (popped0.contains(p.last()) && lab0[p.last()] <= path_cost(m, p)));
        if popped0.contains(p.last()) && lab0[p.last()] <= path_cost(m, p) {
            assert(v0.contains(p.last()));
            assert(popped.contains(p.last()) && lab[p.last()] <= path_cost(m, p));
        } else {
            let j = choose|j: int|
                0 <= j < p.len() && q0.contains(#[trigger] p[j]) && lab0[p[j]] <= path_cost(
                    m,
                    p.take(j + 1),
                );
            assert(v0.contains(p[j]));
            assert(lab[p[j]] == lab0[p[j]]);
            if p[j] == cv {
                lemma_cammino(m, av, bv, lab, popped, qn, p, j);
            } else {
                assert(qn.contains(#[trigger] p[j]));
            }
        }
    }
}

} // verus!
