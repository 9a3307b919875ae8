//! The propagation engine: matching the rule table against a tile's
//! eight-neighbor color counts, recoloring one tile, and recoloring a
//! whole block from one consistent snapshot.

use crate::model::neighbor;
use crate::model::region_set;
use crate::model::RuleView;
use crate::model::TileView;
use crate::plane::lemma_store_map_vals;
use crate::plane::rules_view;
use crate::plane::Piano;
use crate::plane::Piastrella;
use crate::region::scarto;
use crate::region::seq_coords;
use vstd::prelude::*;

verus! {

/// One when the coordinate holds a tile of color `col`, else zero.
pub open spec fn color_ind(m: Map<(int, int), TileView>, p: (int, int), col: Seq<char>) -> int {
    if m.contains_key(p) && m[p].color == col {
        1
    } else {
        0
    }
}

/// How many of the first `d` numbered neighbors of `c` carry `col`.
pub open spec fn count_near(
    m: Map<(int, int), TileView>,
    c: (int, int),
    col: Seq<char>,
    d: int,
) -> int
    decreases d,
{
    if d <= 0 {
        0
    } else {
        count_near(m, c, col, d - 1) + color_ind(m, neighbor(c, d - 1), col)
    }
}

/// How many of the eight neighbors of `c` carry `col`. The tile at
/// `c` itself is not part of its own neighborhood.
pub open spec fn neighbor_count(m: Map<(int, int), TileView>, c: (int, int), col: Seq<char>) -> int {
    count_near(m, c, col, 8)
}

/// The requirement holds: at least `threshold` neighbors carry its
/// color.
pub open spec fn req_ok(m: Map<(int, int), TileView>, c: (int, int), q: crate::model::ReqView) -> bool {
    neighbor_count(m, c, q.color) >= q.threshold
}

/// The rule applies: every one of its requirements holds.
pub open spec fn rule_ok(m: Map<(int, int), TileView>, c: (int, int), r: RuleView) -> bool {
    forall|i: int| 0 <= i < r.reqs.len() ==> req_ok(m, c, #[trigger] r.reqs[i])
}

/// The first applicable rule at or after index `i`, with its color.
pub open spec fn first_match_from(
    m: Map<(int, int), TileView>,
    rules: Seq<RuleView>,
    c: (int, int),
    i: int,
) -> Option<(int, Seq<char>)>
    decreases rules.len() - i,
{
    if i < 0 || i >= rules.len() {
        None
    } else if rule_ok(m, c, rules[i]) {
        Some((i, rules[i].color))
    } else {
        first_match_from(m, rules, c, i + 1)
    }
}

/// The first applicable rule for `c`, scanning the table in priority
/// order; `None` when no rule applies.
pub open spec fn first_match(
    m: Map<(int, int), TileView>,
    rules: Seq<RuleView>,
    c: (int, int),
) -> Option<(int, Seq<char>)> {
    first_match_from(m, rules, c, 0)
}

/// A usage counter after one more firing; it saturates at the top of
/// `u64` instead of wrapping.
pub open spec fn bump(u: u64) -> u64 {
    if u < u64::MAX {
        (u + 1) as u64
    } else {
        u
    }
}

/// A usage counter after `k` more firings, saturating likewise.
pub open spec fn bump_by(u: u64, k: nat) -> u64 {
    if u + k <= u64::MAX {
        (u + k) as u64
    } else {
        u64::MAX
    }
}

/// Firing once more after `k` firings is firing `k + 1` times.
pub proof fn lemma_bump_by_step(u: u64, k: nat)
    ensures
        bump(bump_by(u, k)) == bump_by(u, k + 1),
{
}

/// The state `c` ends in when the region of `start` is propagated
/// from the snapshot `m`: the first applicable rule's color, with the
/// intensity kept, for lit members the table matches; every other
/// coordinate keeps its state.
pub open spec fn block_result(
    m: Map<(int, int), TileView>,
    rules: Seq<RuleView>,
    start: (int, int),
    c: (int, int),
) -> TileView {
    if region_set(m, start, false).contains(c) && first_match(m, rules, c) is Some {
        TileView { color: (first_match(m, rules, c)->0).1, intensity: m[c].intensity }
    } else {
        m[c]
    }
}

/// The members of `reg` whose first applicable rule is rule `i`.
pub open spec fn matched_set(
    m: Map<(int, int), TileView>,
    rules: Seq<RuleView>,
    reg: Set<(int, int)>,
    i: int,
) -> Set<(int, int)> {
    reg.filter(
        |c: (int, int)| first_match(m, rules, c) is Some && (first_match(m, rules, c)->0).0 == i,
    )
}

/// A first match, when there is one, names a rule of the table.
pub proof fn lemma_first_match_range(
    m: Map<(int, int), TileView>,
    rules: Seq<RuleView>,
    c: (int, int),
    i: int,
)
    ensures
        first_match_from(m, rules, c, i) matches Some(p) ==> i <= p.0 < rules.len() && p.1
            == rules[p.0].color && rule_ok(m, c, rules[p.0]),
    decreases rules.len() - i,
{
    if 0 <= i < rules.len() && !rule_ok(m, c, rules[i]) {
        lemma_first_match_range(m, rules, c, i + 1);
    }
}

/// The coordinates of a pending application list.
pub open spec fn app_coords(app: Seq<(Piastrella, usize, String)>) -> Set<(int, int)>
    decreases app.len(),
{
    if app.len() == 0 {
        Set::empty()
    } else {
        app_coords(app.drop_last()).insert(app.last().0@)
    }
}

/// The pending coordinates are exactly the entries' coordinates.
pub proof fn lemma_app_coords(app: Seq<(Piastrella, usize, String)>)
    ensures
        app_coords(app).finite(),
        forall|c: (int, int)|
            #[trigger] app_coords(app).contains(c) <==> exists|t: int|
                0 <= t < app.len() && (#[trigger] app[t]).0@ == c,
    decreases app.len(),
{
    if app.len() == 0 {
    } else {
        lemma_app_coords(app.drop_last());
        assert forall|c: (int, int)| #[trigger]
            app_coords(app).contains(c) implies exists|t: int|
            0 <= t < app.len() && (#[trigger] app[t]).0@ == c by {
            if c == app.last().0@ {
                assert((#[trigger] app[app.len() - 1]).0@ == c);
            } else {
                let t = choose|t: int|
                    0 <= t < app.drop_last().len() && (#[trigger] app.drop_last()[t]).0@ == c;
                assert((#[trigger] app[t]).0@ == c);
            }
        }
        assert forall|c: (int, int)|
            (exists|t: int| 0 <= t < app.len() && (#[trigger] app[t]).0@ == c) implies app_coords(
            app,
        ).contains(c) by {
            let t = choose|t: int| 0 <= t < app.len() && (#[trigger] app[t]).0@ == c;
            if t < app.len() - 1 {
                assert((#[trigger] app.drop_last()[t]).0@ == c);
            }
        }
    }
}

/// How many pending applications fire rule `i`.
pub open spec fn count_rule(app: Seq<(Piastrella, usize, String)>, i: int) -> nat
    decreases app.len(),
{
    if app.len() == 0 {
        0
    } else {
        count_rule(app.drop_last(), i) + (if app.last().1 as int == i {
            1nat
        } else {
            0nat
        })
    }
}

/// The coordinates of the pending applications that fire rule `i`.
pub open spec fn rule_coords(app: Seq<(Piastrella, usize, String)>, i: int) -> Set<(int, int)>
    decreases app.len(),
{
    if app.len() == 0 {
        Set::empty()
    } else {
        let r = rule_coords(app.drop_last(), i);
        if app.last().1 as int == i {
            r.insert(app.last().0@)
        } else {
            r
        }
    }
}

/// Those coordinates are exactly the entries that fire rule `i`, and
/// with pairwise distinct coordinates there are `count_rule` of them.
pub proof fn lemma_rule_coords(app: Seq<(Piastrella, usize, String)>, i: int)
    requires
        forall|t1: int, t2: int|
            0 <= t1 < t2 < app.len() ==> (#[trigger] app[t1]).0@ != (#[trigger] app[t2]).0@,
    ensures
        rule_coords(app, i).finite(),
        rule_coords(app, i).len() == count_rule(app, i),
        forall|c: (int, int)|
            #[trigger] rule_coords(app, i).contains(c) <==> exists|t: int|
                0 <= t < app.len() && (#[trigger] app[t]).0@ == c && app[t].1 as int == i,
    decreases app.len(),
{
    if app.len() == 0 {
    } else {
        lemma_rule_coords(app.drop_last(), i);
        assert forall|c: (int, int)| #[trigger]
            rule_coords(app, i).contains(c) implies exists|t: int|
            0 <= t < app.len() && (#[trigger] app[t]).0@ == c && app[t].1 as int == i by {
            if app.last().1 as int == i && c == app.last().0@ {
                assert((#[trigger] app[app.len() - 1]).0@ == c);
            } else {
                let t = choose|t: int|
                    0 <= t < app.drop_last().len() && (#[trigger] app.drop_last()[t]).0@ == c
                        && app.drop_last()[t].1 as int == i;
                assert((#[trigger] app[t]).0@ == c && app[t].1 as int == i);
            }
        }
        assert forall|c: (int, int)|
            (exists|t: int|
                0 <= t < app.len() && (#[trigger] app[t]).0@ == c && app[t].1 as int
                    == i) implies rule_coords(app, i).contains(c) by {
            let t = choose|t: int|
                0 <= t < app.len() && (#[trigger] app[t]).0@ == c && app[t].1 as int == i;
            if t < app.len() - 1 {
                assert((#[trigger] app.drop_last()[t]).0@ == c && app.drop_last()[t].1 as int == i);
            }
        }
        if app.last().1 as int == i {
            assert(!rule_coords(app.drop_last(), i).contains(app.last().0@)) by {
                if rule_coords(app.drop_last(), i).contains(app.last().0@) {
                    let t = choose|t: int|
                        0 <= t < app.drop_last().len() && (#[trigger] app.drop_last()[t]).0@
                            == app.last().0@ && app.drop_last()[t].1 as int == i;
                    assert((#[trigger] app[t]).0@ == (#[trigger] app[app.len() - 1]).0@);
                }
            }
        }
    }
}

impl Piano {
    /// How many of the eight neighbors of `(x, y)` carry `colore`.
    fn conta_vicini(&self, x: i32, y: i32, colore: &String) -> (r: u8)
        requires
            self.wf(),
        ensures
            r as int == neighbor_count(self.tiles(), (x as int, y as int), colore@),
    {
        let ghost m = self.tiles();
        let ghost c0 = (x as int, y as int);
        let mut conto: u8 = 0;
        let mut d: usize = 0;
        while d < 8
            invariant
                d <= 8,
                self.wf(),
                m == self.tiles(),
                c0 == (x as int, y as int),
                conto <= d,
                conto as int == count_near(m, c0, colore@, d as int),
            decreases 8 - d,
        {
            let delta = scarto(d);
            let nx = x as i64 + delta.0;
            let ny = y as i64 + delta.1;
            let ghost nb = neighbor(c0, d as int);
            proof {
                assert(nb == (nx as int, ny as int));
            }
            match self.cerca_larga(nx, ny) {
                Some(j) => {
                    proof {
                        crate::plane::lemma_store_map_keys(self.piastrelle@);
                        lemma_store_map_vals(self.piastrelle@);
                        assert((#[trigger] self.piastrelle@[j as int]).0@ == nb);
                        assert(m.contains_key(nb));
                        assert(m[nb] == self.piastrelle@[j as int].1@);
                    }
                    let uguale = self.piastrelle[j].1.colore == *colore;
                    if uguale {
                        conto = conto + 1;
                    }
                },
                None => {},
            }
            d = d + 1;
        }
        conto
    }

    /// Whether rule `i` applies to `(x, y)`: every requirement's
    /// neighbor count reaches its threshold.
    fn regola_applicabile(&self, i: usize, x: i32, y: i32) -> (r: bool)
        requires
            self.wf(),
            i < self.regole@.len(),
        ensures
            r == rule_ok(self.tiles(), (x as int, y as int), rules_view(self.regole@)[i as int]),
    {
        let ghost m = self.tiles();
        let ghost c0 = (x as int, y as int);
        let ghost rw = rules_view(self.regole@)[i as int];
        let n = self.regole[i].requisiti.len();
        let mut j: usize = 0;
        while j < n
            invariant
                j <= n,
                self.wf(),
                m == self.tiles(),
                c0 == (x as int, y as int),
                i < self.regole@.len(),
                rw == rules_view(self.regole@)[i as int],
                n == rw.reqs.len(),
                forall|t: int| 0 <= t < j ==> req_ok(m, c0, #[trigger] rw.reqs[t]),
            decreases n - j,
        {
            proof {
                assert(rw.reqs[j as int] == self.regole@[i as int].requisiti@[j as int]@);
            }
            let conto = self.conta_vicini(x, y, &self.regole[i].requisiti[j].colore);
            if conto < self.regole[i].requisiti[j].coefficiente {
                proof {
                    assert(!req_ok(m, c0, rw.reqs[j as int]));
                }
                return false;
            }
            j = j + 1;
        }
        true
    }

    /// The first rule applicable to `(x, y)`, with its index and its
    /// color, scanning the table in priority order; `None` when no
    /// rule applies. The plane is not changed.
    pub fn _simula_propagazione(&self, x: i32, y: i32) -> (r: Option<(usize, String)>)
        requires
            self.wf(),
        ensures
            match r {
                Some(esito) => esito.0 < self.regole@.len() && first_match(
                    self.tiles(),
                    rules_view(self.regole@),
                    (x as int, y as int),
                ) == Some((esito.0 as int, esito.1@)),
                None => first_match(
                    self.tiles(),
                    rules_view(self.regole@),
                    (x as int, y as int),
                ) is None,
            },
    {
        let ghost m = self.tiles();
        let ghost rv = rules_view(self.regole@);
        let ghost c0 = (x as int, y as int);
        let n = self.regole.len();
        let mut i: usize = 0;
        while i < n
            invariant
                i <= n,
                self.wf(),
                m == self.tiles(),
                rv == rules_view(self.regole@),
                c0 == (x as int, y as int),
                n == self.regole@.len(),
                first_match(m, rv, c0) == first_match_from(m, rv, c0, i as int),
            decreases n - i,
        {
            if self.regola_applicabile(i, x, y) {
                let colore = self.regole[i].colore.clone();
                proof {
                    assert(rv[i as int].color == self.regole@[i as int].colore@);
                }
                return Some((i, colore));
            }
            i = i + 1;
        }
        None
    }

    /// Recolors `(x, y)` by the first applicable rule, keeping its
    /// intensity if it was lit and defaulting it to one otherwise,
    /// and counts one more firing of that rule; without an applicable
    /// rule nothing changes.
    pub fn propaga(&mut self, x: i32, y: i32)
        requires
            old(self).wf(),
            old(self).tiles().dom().len() < 0xFFFF_FFFF,
        ensures
            final(self).wf(),
            ({
                let m = old(self).tiles();
                let rv = rules_view(old(self).regole@);
                let c0 = (x as int, y as int);
                match first_match(m, rv, c0) {
                    None => final(self).tiles() == m && final(self).regole == old(self).regole,
                    Some(esito) => {
                        &&& final(self).tiles() == m.insert(
                            c0,
                            TileView {
                                color: esito.1,
                                intensity: if m.contains_key(c0) {
                                    m[c0].intensity
                                } else {
                                    1u32
                                },
                            },
                        )
                        &&& rules_view(final(self).regole@) == rules_view(
                            old(self).regole@,
                        ).update(
                            esito.0,
                            RuleView {
                                reqs: rules_view(old(self).regole@)[esito.0].reqs,
                                color: rules_view(old(self).regole@)[esito.0].color,
                                usage: bump(rules_view(old(self).regole@)[esito.0].usage),
                            },
                        )
                    },
                }
            }),
    {
        let ghost m = self.tiles();
        let ghost rv = rules_view(self.regole@);
        let ghost c0 = (x as int, y as int);
        match self._simula_propagazione(x, y) {
            None => {},
            Some((i, colore)) => {
                let intensita = match self.trova(x, y) {
                    Some(j) => {
                        proof {
                            crate::plane::lemma_store_map_keys(self.piastrelle@);
                            lemma_store_map_vals(self.piastrelle@);
                            assert((#[trigger] self.piastrelle@[j as int]).0@ == c0);
                            assert(m.contains_key(c0));
                            assert(m[c0] == self.piastrelle@[j as int].1@);
                        }
                        self.piastrelle[j].1.intensita
                    },
                    None => 1,
                };
                proof {
                    if m.contains_key(c0) {
                        crate::plane::lemma_store_map_valid(self.piastrelle@);
                    }
                    assert(intensita == (if m.contains_key(c0) {
                        m[c0].intensity
                    } else {
                        1u32
                    }));
                }
                let ghost colv = colore@;
                self.inserisci(x, y, colore, intensita);
                proof {
                    assert(self.tiles() == m.insert(
                        c0,
                        TileView { color: colv, intensity: intensita },
                    ));
                }
                let vecchio = self.regole[i].utilizzo;
                if vecchio < u64::MAX {
                    self.regole[i].utilizzo = vecchio + 1;
                }
                proof {
                    assert(rules_view(self.regole@) =~~= rv.update(
                        i as int,
                        RuleView {
                            reqs: rv[i as int].reqs,
                            color: rv[i as int].color,
                            usage: bump(rv[i as int].usage),
                        },
                    ));
                }
            },
        }
    }

    /// Recolors every tile of the block of `(x, y)` by the first rule
    /// applicable to it, with every match read from the state as it
    /// stood before any change: a recoloring inside the block cannot
    /// trigger another tile's match in the same call. Intensities are
    /// kept, and each matched rule's firings are counted.
    #[verifier::rlimit(60)]
    pub fn propaga_blocco(&mut self, x: i32, y: i32)
        requires
            old(self).wf(),
        ensures
            final(self).wf(),
            ({
                let m = old(self).tiles();
                let rv = rules_view(old(self).regole@);
                let c0 = (x as int, y as int);
                &&& final(self).tiles().dom() == m.dom()
                &&& forall|c: (int, int)| #[trigger]
                    m.contains_key(c) ==> final(self).tiles()[c] == block_result(m, rv, c0, c)
                &&& rules_view(final(self).regole@).len() == rv.len()
                &&& forall|i: int|
                    0 <= i < rv.len() ==> (#[trigger] rules_view(final(self).regole@)[i])
                        == (RuleView {
                        reqs: rv[i].reqs,
                        color: rv[i].color,
                        usage: bump_by(
                            rv[i].usage,
                            matched_set(m, rv, region_set(m, c0, false), i).len(),
                        ),
                    })
            }),
    {
        let ghost m = self.tiles();
        let ghost rv = rules_view(self.regole@);
        let ghost c0 = (x as int, y as int);
        let ghost reg = region_set(m, c0, false);
        let (_, membri) = self._blocco_generico(x, y, false);
        proof {
            if !m.contains_key(c0) {
                crate::model::lemma_region_off(m, c0, false);
                assert(seq_coords(membri@) =~= reg);
            }
            crate::model::lemma_reach_is_lit(m, c0, false);
            crate::plane::lemma_store_map_valid(self.piastrelle@);
            assert forall|c: (int, int)| #[trigger]
                reg.contains(c) implies m.contains_key(c) && crate::model::tile_view_valid(
                m[c],
            ) by {
                assert(crate::model::region_reach(m, c0, c, false));
            }
        }
        let mut applicazioni: Vec<(Piastrella, usize, String)> = Vec::new();
        let mut k: usize = 0;
        while k < membri.len()
            invariant
                k <= membri@.len(),
                self.wf(),
                m == self.tiles(),
                rv == rules_view(self.regole@),
                seq_coords(membri@) == reg,
                forall|i: int, j: int|
                    0 <= i < j < membri@.len() ==> (#[trigger] membri@[i])@ != (
                    #[trigger] membri@[j])@,
                forall|t1: int, t2: int|
                    0 <= t1 < t2 < applicazioni@.len() ==> (#[trigger] applicazioni@[t1]).0@ != (
                    #[trigger] applicazioni@[t2]).0@,
                forall|t: int|
                    0 <= t < applicazioni@.len() ==> reg.contains((#[trigger] applicazioni@[t]).0@)
                        && first_match(m, rv, applicazioni@[t].0@) == Some(
                        (applicazioni@[t].1 as int, applicazioni@[t].2@),
                    ),
                forall|j: int|
                    0 <= j < k && first_match(m, rv, (#[trigger] membri@[j])@) is Some ==> exists|
                        t: int,
                    | 0 <= t < applicazioni@.len() && (#[trigger] applicazioni@[t]).0@
                        == membri@[j]@,
                forall|t: int|
                    #![trigger applicazioni@[t]]
                    0 <= t < applicazioni@.len() ==> exists|j: int|
                        0 <= j < k && (#[trigger] membri@[j])@ == applicazioni@[t].0@,
            decreases membri@.len() - k,
        {
            let p = membri[k];
            match self._simula_propagazione(p.x, p.y) {
                Some((i, col)) => {
                    let ghost app0 = applicazioni@;
                    applicazioni.push((p, i, col));
                    proof {
                        assert(applicazioni@.drop_last() =~= app0);
                        assert(applicazioni@.last() == (p, i, col));
                        assert(reg.contains(p@)) by {
                            crate::region::lemma_seq_coords(membri@);
                            assert((#[trigger] membri@[k as int])@ == p@);
                        }
                        assert forall|t1: int, t2: int|
                            0 <= t1 < t2 < applicazioni@.len() implies (
                        #[trigger] applicazioni@[t1]).0@ != (#[trigger] applicazioni@[t2]).0@ by {
                            if t2 == applicazioni@.len() - 1 {
                                let j = choose|j: int|
                                    0 <= j < k && (#[trigger] membri@[j])@ == app0[t1].0@;
                                assert(membri@[j]@ != membri@[k as int]@);
                            }
                        }
                        assert forall|j: int|
                            0 <= j < k + 1 && first_match(
                                m,
                                rv,
                                (#[trigger] membri@[j])@,
                            ) is Some implies exists|t: int|
                            0 <= t < applicazioni@.len() && (#[trigger] applicazioni@[t]).0@
                                == membri@[j]@ by {
                            if j == k as int {
                                assert((#[trigger] applicazioni@[applicazioni@.len() - 1]).0@
                                    == membri@[j]@);
                            } else {
                                let t = choose|t: int|
                                    0 <= t < app0.len() && (#[trigger] app0[t]).0@ == membri@[j]@;
                                assert((#[trigger] applicazioni@[t]).0@ == membri@[j]@);
                            }
                        }
                        assert forall|t: int|
                            #![trigger applicazioni@[t]]
                            0 <= t < applicazioni@.len() implies exists|j: int|
                            0 <= j < k + 1 && (#[trigger] membri@[j])@ == applicazioni@[t].0@ by {
                            if t == applicazioni@.len() - 1 {
                                assert((#[trigger] membri@[k as int])@ == applicazioni@[t].0@);
                            } else {
                                let j = choose|j: int|
                                    0 <= j < k && (#[trigger] membri@[j])@ == app0[t].0@;
                                assert((#[trigger] membri@[j])@ == applicazioni@[t].0@);
                            }
                        }
                    }
                },
                None => {},
            }
            k = k + 1;
        }
        let ghost app = applicazioni@;
        let mut t: usize = 0;
        proof {
            assert(app.take(0) =~= Seq::<(Piastrella, usize, String)>::empty());
            assert forall|i: int| 0 <= i < rv.len() implies (#[trigger] rules_view(self.regole@)[i])
                == RuleView {
                reqs: rv[i].reqs,
                color: rv[i].color,
                usage: bump_by(rv[i].usage, count_rule(app.take(0), i)),
            } by {
                assert(rules_view(self.regole@)[i] =~~= RuleView {
                    reqs: rv[i].reqs,
                    color: rv[i].color,
                    usage: bump_by(rv[i].usage, count_rule(app.take(0), i)),
                });
            }
        }
        while t < applicazioni.len()
            invariant
                t <= app.len(),
                app == applicazioni@,
                self.wf(),
                rv.len() == rules_view(self.regole@).len(),
                forall|c: (int, int)| #[trigger]
                    reg.contains(c) ==> m.contains_key(c) && crate::model::tile_view_valid(m[c]),
                forall|t1: int, t2: int|
                    0 <= t1 < t2 < app.len() ==> (#[trigger] app[t1]).0@ != (#[trigger] app[t2]).0@,
                forall|s: int|
                    0 <= s < app.len() ==> reg.contains((#[trigger] app[s]).0@) && first_match(
                        m,
                        rv,
                        app[s].0@,
                    ) == Some((app[s].1 as int, app[s].2@)),
                self.tiles().dom() == m.dom(),
                forall|c: (int, int)| #[trigger]
                    m.contains_key(c) ==> self.tiles()[c] == (if app_coords(
                        app.take(t as int),
                    ).contains(c) {
                        (TileView {
                            color: (first_match(m, rv, c)->0).1,
                            intensity: m[c].intensity,
                        })
                    } else {
                        m[c]
                    }),
                forall|i: int|
                    0 <= i < rv.len() ==> (#[trigger] rules_view(self.regole@)[i]) == (RuleView {
                        reqs: rv[i].reqs,
                        color: rv[i].color,
                        usage: bump_by(rv[i].usage, count_rule(app.take(t as int), i)),
                    }),
            decreases app.len() - t,
        {
            let p = applicazioni[t].0;
            let i = applicazioni[t].1;
            let col = applicazioni[t].2.clone();
            let ghost colv = col@;
            proof {
                assert(reg.contains((#[trigger] app[t as int]).0@));
                lemma_first_match_range(m, rv, p@, 0);
                assert(i < rv.len());
                assert(self.tiles().contains_key(p@)) by {
                    assert(m.dom().contains(p@));
                }
            }
            let w = self.intensita_di(p.x, p.y);
            proof {
                assert(w == m[p@].intensity);
                assert(w >= 1);
            }
            let ghost stato0 = self.tiles();
            let ghost regole0 = rules_view(self.regole@);
            self.inserisci(p.x, p.y, col, w);
            let vecchio = self.regole[i].utilizzo;
            if vecchio < u64::MAX {
                self.regole[i].utilizzo = vecchio + 1;
            }
            proof {
                let pre = app.take(t as int);
                let post = app.take(t as int + 1);
                assert(post.drop_last() =~= pre);
                assert(post.last() == app[t as int]);
                assert(app_coords(post) == app_coords(pre).insert(p@));
                assert(self.tiles() == stato0.insert(p@, TileView { color: colv, intensity: w }));
                assert(self.tiles().dom() =~= m.dom());
                assert((first_match(m, rv, p@)->0).1 == colv);
                assert forall|c: (int, int)| #[trigger]
                    m.contains_key(c) implies self.tiles()[c] == (if app_coords(post).contains(c) {
                    TileView { color: (first_match(m, rv, c)->0).1, intensity: m[c].intensity }
                } else {
                    m[c]
                }) by {
                    if c != p@ {
                        assert(self.tiles()[c] == stato0[c]);
                        assert(app_coords(post).contains(c) == app_coords(pre).contains(c));
                    }
                }
                assert forall|ii: int| 0 <= ii < rv.len() implies (
                #[trigger] rules_view(self.regole@)[ii]) == RuleView {
                    reqs: rv[ii].reqs,
                    color: rv[ii].color,
                    usage: bump_by(rv[ii].usage, count_rule(post, ii)),
                } by {
                    assert(count_rule(post, ii) == count_rule(pre, ii) + (if i as int == ii {
                        1nat
                    } else {
                        0nat
                    }));
                    lemma_bump_by_step(rv[ii].usage, count_rule(pre, ii));
                    assert(rules_view(self.regole@)[ii] =~~= regole0.update(
                        i as int,
                        RuleView {
                            reqs: regole0[i as int].reqs,
                            color: regole0[i as int].color,
                            usage: bump(regole0[i as int].usage),
                        },
                    )[ii]);
                }
            }
            t = t + 1;
        }
        proof {
            assert(app.take(app.len() as int) =~= app);
            lemma_app_coords(app);
            crate::region::lemma_seq_coords(membri@);
            assert forall|c: (int, int)| #[trigger]
                app_coords(app).contains(c) <==> (reg.contains(c) && first_match(
                m,
                rv,
                c,
            ) is Some) by {
                if app_coords(app).contains(c) {
                    let s = choose|s: int| 0 <= s < app.len() && (#[trigger] app[s]).0@ == c;
                }
                if reg.contains(c) && first_match(m, rv, c) is Some {
                    let j = choose|j: int|
                        0 <= j < membri@.len() && (#[trigger] membri@[j])@ == c;
                    assert(first_match(m, rv, (#[trigger] membri@[j])@) is Some);
                }
            }
            assert forall|c: (int, int)| #[trigger] m.contains_key(c) implies self.tiles()[c]
                == block_result(m, rv, c0, c) by {}
            assert forall|i: int| 0 <= i < rv.len() implies (
            #[trigger] rules_view(self.regole@)[i]) == RuleView {
                reqs: rv[i].reqs,
                color: rv[i].color,
                usage: bump_by(rv[i].usage, matched_set(m, rv, reg, i).len()),
            } by {
                lemma_rule_coords(app, i);
                assert(matched_set(m, rv, reg, i) =~= rule_coords(app, i)) by {
                    assert forall|c: (int, int)| #[trigger]
                        matched_set(m, rv, reg, i).contains(c) implies rule_coords(
                        app,
                        i,
                    ).contains(c) by {
                        assert(app_coords(app).contains(c));
                        let s = choose|s: int| 0 <= s < app.len() && (#[trigger] app[s]).0@ == c;
                        assert(app[s].1 as int == i);
                    }
                    assert forall|c: (int, int)| #[trigger]
                        rule_coords(app, i).contains(c) implies matched_set(m, rv, reg, i).contains(
                        c,
                    ) by {
                        let s = choose|s: int|
                            0 <= s < app.len() && (#[trigger] app[s]).0@ == c && app[s].1 as int
                                == i;
                    }
                }
            }
        }
    }
}

} // verus!
