//! The region analyzer: the connected component of a start tile under
//! eight-way adjacency, restricted to lit tiles and, on request, to
//! tiles of the start tile's color; and the sum of its intensities.

use crate::model::adjacent;
use crate::model::lemma_adjacent_offsets;
use crate::model::lemma_reach_extend;
use crate::model::lemma_reach_into_closed;
use crate::model::lemma_reach_is_lit;
use crate::model::lemma_reach_self;
use crate::model::lemma_region_sum_empty;
use crate::model::lemma_region_sum_insert;
use crate::model::neighbor;
use crate::model::offset;
use crate::model::region_reach;
use crate::model::region_set;
use crate::model::region_sum;
use crate::model::tile_weight;
use crate::plane::lemma_store_map_vals;
use crate::plane::Piano;
use crate::plane::Piastrella;
use vstd::prelude::*;

verus! {

/// The coordinates of a sequence of tiles, as a set.
pub open spec fn seq_coords(s: Seq<Piastrella>) -> Set<(int, int)>
    decreases s.len(),
{
    if s.len() == 0 {
        Set::empty()
    } else {
        seq_coords(s.drop_last()).insert(s.last()@)
    }
}

/// The coordinate set is finite, no larger than the sequence, and
/// holds exactly the entries' coordinates.
pub proof fn lemma_seq_coords(s: Seq<Piastrella>)
    ensures
        seq_coords(s).finite(),
        seq_coords(s).len() <= s.len(),
        forall|c: (int, int)|
            #[trigger] seq_coords(s).contains(c) <==> exists|k: int|
                0 <= k < s.len() && (#[trigger] s[k])@ == c,
    decreases s.len(),
{
    if s.len() == 0 {
    } else {
        lemma_seq_coords(s.drop_last());
        assert forall|c: (int, int)| #[trigger]
            seq_coords(s).contains(c) implies exists|k: int|
            0 <= k < s.len() && (#[trigger] s[k])@ == c by {
            if c == s.last()@ {
                assert((#[trigger] s[s.len() - 1])@ == c);
            } else {
                let k = choose|k: int|
                    0 <= k < s.drop_last().len() && (#[trigger] s.drop_last()[k])@ == c;
                assert((#[trigger] s[k])@ == c);
            }
        }
        assert forall|c: (int, int)|
            (exists|k: int| 0 <= k < s.len() && (#[trigger] s[k])@ == c) implies seq_coords(
            s,
        ).contains(c) by {
            let k = choose|k: int| 0 <= k < s.len() && (#[trigger] s[k])@ == c;
            if k < s.len() - 1 {
                assert((#[trigger] s.drop_last()[k])@ == c);
            }
        }
    }
}

/// With pairwise distinct coordinates the set is exactly as large as
/// the sequence.
pub proof fn lemma_seq_coords_distinct(s: Seq<Piastrella>)
    requires
        forall|i: int, j: int| 0 <= i < j < s.len() ==> (#[trigger] s[i])@ != (#[trigger] s[j])@,
    ensures
        seq_coords(s).len() == s.len(),
    decreases s.len(),
{
    if s.len() == 0 {
    } else {
        lemma_seq_coords_distinct(s.drop_last());
        lemma_seq_coords(s.drop_last());
        assert(!seq_coords(s.drop_last()).contains(s.last()@)) by {
            if seq_coords(s.drop_last()).contains(s.last()@) {
                let k = choose|k: int|
                    0 <= k < s.drop_last().len() && (#[trigger] s.drop_last()[k])@ == s.last()@;
                assert((#[trigger] s[k])@ == (#[trigger] s[s.len() - 1])@);
            }
        }
    }
}

/// The numbered neighbor offsets, as machine integers.
pub(crate) fn scarto(d: usize) -> (r: (i64, i64))
    requires
        d < 8,
    ensures
        (r.0 as int, r.1 as int) == offset(d as int),
        -1 <= r.0 <= 1,
        -1 <= r.1 <= 1,
{
    match d {
        0 => (-1, -1),
        1 => (-1, 0),
        2 => (-1, 1),
        3 => (0, -1),
        4 => (0, 1),
        5 => (1, -1),
        6 => (1, 0),
        _ => (1, 1),
    }
}

/// Whether the sequence holds the coordinate `(x, y)`.
pub(crate) fn contiene(v: &Vec<Piastrella>, x: i64, y: i64) -> (r: bool)
    ensures
        r == seq_coords(v@).contains((x as int, y as int)),
{
    proof {
        lemma_seq_coords(v@);
    }
    let n = v.len();
    let mut i: usize = 0;
    while i < n
        invariant
            i <= n,
            n == v@.len(),
            forall|j: int| 0 <= j < i ==> (#[trigger] v@[j])@ != (x as int, y as int),
        decreases n - i,
    {
        let p = &v[i];
        if p.x as i64 == x && p.y as i64 == y {
            proof {
                lemma_seq_coords(v@);
                assert((#[trigger] v@[i as int])@ == (x as int, y as int));
            }
            return true;
        }
        i = i + 1;
    }
    false
}

impl Piano {
    /// The connected region of `(x, y)` and its total intensity: a
    /// breadth-style flood fill over lit tiles, eight-way adjacent,
    /// restricted to the start tile's color when `omogeneo` is set.
    /// An off start yields zero and no members.
    pub fn _blocco_generico(&self, x: i32, y: i32, omogeneo: bool) -> (r: (u64, Vec<Piastrella>))
        requires
            self.wf(),
        ensures
            r.0 as int == region_sum(
                self.tiles(),
                region_set(self.tiles(), (x as int, y as int), omogeneo),
            ),
            !self.tiles().contains_key((x as int, y as int)) ==> r.1@.len() == 0,
            self.tiles().contains_key((x as int, y as int)) ==> seq_coords(r.1@) == region_set(
                self.tiles(),
                (x as int, y as int),
                omogeneo,
            ),
            forall|i: int, j: int|
                0 <= i < j < r.1@.len() ==> (#[trigger] r.1@[i])@ != (#[trigger] r.1@[j])@,
    {
        let ghost m = self.tiles();
        let ghost c0 = (x as int, y as int);
        let idx0 = match self.trova(x, y) {
            Some(i) => i,
            None => {
                proof {
                    crate::model::lemma_region_off(m, c0, omogeneo);
                    lemma_region_sum_empty(m);
                }
                return (0, Vec::new());
            },
        };
        let colore0 = self.piastrelle[idx0].1.colore.clone();
        proof {
            crate::plane::lemma_store_map_keys(self.piastrelle@);
            lemma_store_map_vals(self.piastrelle@);
            assert((#[trigger] self.piastrelle@[idx0 as int]).0@ == c0);
            assert(m.contains_key(c0));
            assert(m[c0] == self.piastrelle@[idx0 as int].1@);
            assert(m[c0].color == colore0@);
            lemma_reach_self(m, c0, omogeneo);
        }
        let inizio = Piastrella { x, y };
        let mut visitati: Vec<Piastrella> = Vec::new();
        let mut coda: Vec<Piastrella> = Vec::new();
        proof {
            assert(seq_coords(visitati@) =~= Set::empty());
        }
        visitati.push(inizio);
        coda.push(inizio);
        proof {
            assert(visitati@.drop_last() =~= Seq::<Piastrella>::empty());
            assert(coda@.drop_last() =~= Seq::<Piastrella>::empty());
            assert(seq_coords(visitati@) =~= Set::empty().insert(c0));
            assert(seq_coords(coda@) =~= Set::empty().insert(c0));
            lemma_seq_coords(visitati@);
            self.lemma_tiles_props();
            assert(seq_coords(visitati@).len() <= m.dom().len()) by {
                assert(seq_coords(visitati@) =~= Set::empty().insert(c0));
                vstd::set_lib::lemma_len_subset(seq_coords(visitati@), m.dom());
            }
        }
        while coda.len() > 0
            invariant
                self.wf(),
                m == self.tiles(),
                c0 == (x as int, y as int),
                m.contains_key(c0),
                m[c0].color == colore0@,
                m.dom().finite(),
                forall|i: int, j: int|
                    0 <= i < j < visitati@.len() ==> (#[trigger] visitati@[i])@ != (
                    #[trigger] visitati@[j])@,
                forall|k: int|
                    0 <= k < coda@.len() ==> seq_coords(visitati@).contains(
                        (#[trigger] coda@[k])@,
                    ),
                seq_coords(visitati@).contains(c0),
                forall|k: int|
                    0 <= k < visitati@.len() ==> region_reach(
                        m,
                        c0,
                        (#[trigger] visitati@[k])@,
                        omogeneo,
                    ),
                forall|c: (int, int), n: (int, int)|
                    #![trigger seq_coords(visitati@).contains(c), adjacent(c, n)]
                    seq_coords(visitati@).contains(c) && !seq_coords(coda@).contains(c)
                        && adjacent(c, n) && m.contains_key(n) && (omogeneo ==> m[n].color
                        == m[c0].color) ==> seq_coords(visitati@).contains(n),
                seq_coords(visitati@).len() <= m.dom().len(),
            decreases m.dom().len() - seq_coords(visitati@).len(), coda@.len(),
        {
            let ghost va0 = seq_coords(visitati@);
            let ghost nc0 = coda@.len();
            let cur = match coda.pop() {
                Some(p) => p,
                None => {
                    proof {
                        assert(false);
                    }
                    inizio
                },
            };
            proof {
                lemma_seq_coords(coda@);
                lemma_seq_coords(visitati@);
                assert(seq_coords(visitati@).contains(cur@));
            }
            let mut d: usize = 0;
            while d < 8
                invariant
                    d <= 8,
                    self.wf(),
                    m == self.tiles(),
                    c0 == (x as int, y as int),
                    m.contains_key(c0),
                    m[c0].color == colore0@,
                    m.dom().finite(),
                    seq_coords(visitati@).contains(cur@),
                    region_reach(m, c0, cur@, omogeneo),
                    forall|i: int, j: int|
                        0 <= i < j < visitati@.len() ==> (#[trigger] visitati@[i])@ != (
                        #[trigger] visitati@[j])@,
                    forall|k: int|
                        0 <= k < coda@.len() ==> seq_coords(visitati@).contains(
                            (#[trigger] coda@[k])@,
                        ),
                    seq_coords(visitati@).contains(c0),
                    forall|k: int|
                        0 <= k < visitati@.len() ==> region_reach(
                            m,
                            c0,
                            (#[trigger] visitati@[k])@,
                            omogeneo,
                        ),
                    forall|c: (int, int), n: (int, int)|
                        #![trigger seq_coords(visitati@).contains(c), adjacent(c, n)]
                        seq_coords(visitati@).contains(c) && !seq_coords(coda@).contains(c) && c
                            != cur@ && adjacent(c, n) && m.contains_key(n) && (omogeneo
                            ==> m[n].color == m[c0].color) ==> seq_coords(visitati@).contains(n),
                    forall|dd: int|
                        0 <= dd < d && m.contains_key(#[trigger] neighbor(cur@, dd)) && (omogeneo
                            ==> m[neighbor(cur@, dd)].color == m[c0].color) ==> seq_coords(
                            visitati@,
                        ).contains(neighbor(cur@, dd)),
                    seq_coords(visitati@).len() <= m.dom().len(),
                    seq_coords(visitati@).len() + nc0 == va0.len() + coda@.len() + 1,
                    va0.len() <= seq_coords(visitati@).len(),
                decreases 8 - d,
            {
                let delta = scarto(d);
                let nx = cur.x as i64 + delta.0;
                let ny = cur.y as i64 + delta.1;
                let ghost nb = neighbor(cur@, d as int);
                proof {
                    assert(nb == (nx as int, ny as int));
                }
                match self.cerca_larga(nx, ny) {
                    Some(j) => {
                        proof {
                            crate::plane::lemma_store_map_keys(self.piastrelle@);
                            lemma_store_map_vals(self.piastrelle@);
                            assert((#[trigger] self.piastrelle@[j as int]).0@ == nb);
                            assert(m.contains_key(nb));
                            assert(m[nb] == self.piastrelle@[j as int].1@);
                        }
                        let stesso = if omogeneo {
                            let uguale = self.piastrelle[j].1.colore == colore0;
                            proof {
                                assert(m[nb].color == self.piastrelle@[j as int].1.colore@);
                                assert(uguale == (m[nb].color == m[c0].color));
                            }
                            uguale
                        } else {
                            true
                        };
                        if stesso && !contiene(&visitati, nx, ny) {
                            proof {
                                crate::plane::lemma_store_map_range(self.piastrelle@);
                                assert(i32::MIN <= nx as int <= i32::MAX);
                                assert(i32::MIN <= ny as int <= i32::MAX);
                            }
                            let nuovo = Piastrella { x: nx as i32, y: ny as i32 };
                            let ghost vis0 = visitati@;
                            let ghost cq0 = coda@;
                            visitati.push(nuovo);
                            coda.push(nuovo);
                            proof {
                                assert(nuovo@ == nb);
                                assert(visitati@.drop_last() =~= vis0);
                                assert(coda@.drop_last() =~= cq0);
                                assert(seq_coords(visitati@) == seq_coords(vis0).insert(nb));
                                assert(seq_coords(coda@) == seq_coords(cq0).insert(nb));
                                lemma_seq_coords(vis0);
                                lemma_seq_coords(visitati@);
                                assert(adjacent(cur@, nb)) by {
                                    assert(offset(d as int) != (0int, 0int));
                                }
                                lemma_reach_extend(m, c0, cur@, nb, omogeneo);
                                assert(seq_coords(visitati@).len() == seq_coords(vis0).len()
                                    + 1);
                                assert(seq_coords(visitati@) <= m.dom()) by {
                                    assert forall|cc: (int, int)|
                                        seq_coords(visitati@).contains(cc) implies m.dom().contains(
                                        cc,
                                    ) by {
                                        let k = choose|k: int|
                                            0 <= k < visitati@.len() && (#[trigger] visitati@[k])@
                                                == cc;
                                        lemma_reach_is_lit(m, c0, omogeneo);
                                    }
                                }
                                vstd::set_lib::lemma_len_subset(seq_coords(visitati@), m.dom());
                            }
                        }
                    },
                    None => {},
                }
                d = d + 1;
            }
            proof {
                assert forall|c: (int, int), n: (int, int)|
                    #![trigger seq_coords(visitati@).contains(c), adjacent(c, n)]
                    seq_coords(visitati@).contains(c) && !seq_coords(coda@).contains(c) && adjacent(
                        c,
                        n,
                    ) && m.contains_key(n) && (omogeneo ==> m[n].color
                        == m[c0].color) implies seq_coords(visitati@).contains(n) by {
                    if c == cur@ {
                        lemma_adjacent_offsets(c, n);
                        let dd = choose|dd: int| 0 <= dd < 8 && n == neighbor(c, dd);
                        assert(m.contains_key(#[trigger] neighbor(cur@, dd)));
                    }
                }
            }
        }
        proof {
            lemma_seq_coords(visitati@);
            assert(seq_coords(coda@) =~= Set::empty());
            lemma_reach_into_closed(m, c0, omogeneo, seq_coords(visitati@));
            assert(region_set(m, c0, omogeneo) =~= seq_coords(visitati@)) by {
                assert forall|c: (int, int)|
                    seq_coords(visitati@).contains(c) implies region_set(m, c0, omogeneo).contains(
                    c,
                ) by {
                    let k = choose|k: int|
                        0 <= k < visitati@.len() && (#[trigger] visitati@[k])@ == c;
                }
            }
            lemma_seq_coords_distinct(visitati@);
            lemma_reach_is_lit(m, c0, omogeneo);
            assert forall|k: int| 0 <= k < visitati@.len() implies m.contains_key(
                (#[trigger] visitati@[k])@,
            ) by {
                assert(region_reach(m, c0, visitati@[k]@, omogeneo));
            }
        }
        let mut totale: u64 = 0;
        let mut k: usize = 0;
        let ghost vs = visitati@;
        proof {
            assert(vs.take(0) =~= Seq::<Piastrella>::empty());
            assert(seq_coords(vs.take(0)) =~= Set::empty());
            lemma_region_sum_empty(m);
            assert(vs.len() <= 0xFFFF_FFFF) by {
                assert(seq_coords(vs).len() == vs.len());
                assert(seq_coords(vs).len() <= m.dom().len());
                crate::plane::lemma_store_map_keys(self.piastrelle@);
            }
        }
        while k < visitati.len()
            invariant
                k <= vs.len(),
                vs == visitati@,
                self.wf(),
                m == self.tiles(),
                vs.len() <= 0xFFFF_FFFF,
                forall|i: int, j: int|
                    0 <= i < j < vs.len() ==> (#[trigger] vs[i])@ != (#[trigger] vs[j])@,
                forall|kk: int| 0 <= kk < vs.len() ==> m.contains_key((#[trigger] vs[kk])@),
                totale as int == region_sum(m, seq_coords(vs.take(k as int))),
                totale as int <= (k as int) * (u32::MAX as int),
            decreases vs.len() - k,
        {
            let p = visitati[k];
            let w = self.intensita_di(p.x, p.y);
            proof {
                let pre = vs.take(k as int);
                let post = vs.take(k as int + 1);
                assert(post.drop_last() =~= pre);
                assert(post.last() == vs[k as int]);
                lemma_seq_coords(pre);
                assert(!seq_coords(pre).contains(vs[k as int]@)) by {
                    if seq_coords(pre).contains(vs[k as int]@) {
                        let j = choose|j: int|
                            0 <= j < pre.len() && (#[trigger] pre[j])@ == vs[k as int]@;
                        assert((#[trigger] vs[j])@ == (#[trigger] vs[k as int])@);
                    }
                }
                lemma_region_sum_insert(m, seq_coords(pre), vs[k as int]@);
                assert(tile_weight(m, vs[k as int]@) == w as int);
                assert((k as int) * (u32::MAX as int) + (u32::MAX as int) == (k as int + 1) * (
                u32::MAX as int)) by (nonlinear_arith);
                assert((k as int + 1) * (u32::MAX as int) <= 0xFFFF_FFFFint * (u32::MAX as int))
                    by (nonlinear_arith)
                    requires
                        k as int + 1 <= 0xFFFF_FFFFint,
                ;
                assert(0xFFFF_FFFFint * (u32::MAX as int) < u64::MAX as int) by (nonlinear_arith);
            }
            totale = totale + w as u64;
            k = k + 1;
        }
        proof {
            assert(vs.take(vs.len() as int) =~= vs);
        }
        (totale, visitati)
    }

    /// The total intensity of the block of `(x, y)`: its connected
    /// region without the color restriction. Zero if the tile is off.
    pub fn blocco(&self, x: i32, y: i32) -> (r: u64)
        requires
            self.wf(),
        ensures
            r as int == region_sum(
                self.tiles(),
                region_set(self.tiles(), (x as int, y as int), false),
            ),
    {
        let (totale, _) = self._blocco_generico(x, y, false);
        totale
    }

    /// The total intensity of the homogeneous block of `(x, y)`: its
    /// connected region restricted to the start tile's color. Zero if
    /// the tile is off.
    pub fn blocco_omogeneo(&self, x: i32, y: i32) -> (r: u64)
        requires
            self.wf(),
        ensures
            r as int == region_sum(
                self.tiles(),
                region_set(self.tiles(), (x as int, y as int), true),
            ),
    {
        let (totale, _) = self._blocco_generico(x, y, true);
        totale
    }
}

} // verus!
