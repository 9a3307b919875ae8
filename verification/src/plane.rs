//! The plane and its tile store.
//!
//! `Piano` owns the sparse tile store and the ordered rule table. The
//! store is a vector of coordinate/state pairs with pairwise distinct
//! coordinates; its mathematical view is the finite map built from the
//! entries, and every operation is specified against that map.

use crate::model::ReqView;
use crate::model::RuleView;
use crate::model::TileView;
use vstd::prelude::*;

verus! {

/// One addressable cell of the plane, addressed by signed coordinates.
#[derive(Eq, Hash, PartialEq, Clone, Copy, Debug, Structural)]
pub struct Piastrella {
    pub x: i32,
    pub y: i32,
}

impl View for Piastrella {
    type V = (int, int);

    open spec fn view(&self) -> (int, int) {
        (self.x as int, self.y as int)
    }
}

/// The state of a lit tile: a color label and a positive intensity.
#[derive(PartialEq, Clone, Debug)]
pub struct Colorazione {
    pub colore: String,
    pub intensita: u32,
}

impl View for Colorazione {
    type V = TileView;

    open spec fn view(&self) -> TileView {
        TileView { color: self.colore@, intensity: self.intensita }
    }
}

/// One requirement of a rule: at least `coefficiente` of the eight
/// neighbors must carry `colore`.
#[derive(PartialEq, Debug)]
pub struct Requisito {
    pub coefficiente: u8,
    pub colore: String,
}

impl View for Requisito {
    type V = ReqView;

    open spec fn view(&self) -> ReqView {
        ReqView { threshold: self.coefficiente, color: self.colore@ }
    }
}

/// One recoloring rule: its requirements in priority order, the color
/// it paints, and a usage counter that starts at zero.
#[derive(PartialEq, Debug)]
pub struct Regola {
    pub requisiti: Vec<Requisito>,
    pub colore: String,
    pub utilizzo: u64,
}

impl View for Regola {
    type V = RuleView;

    open spec fn view(&self) -> RuleView {
        RuleView {
            reqs: Seq::new(self.requisiti@.len(), |i: int| self.requisiti@[i]@),
            color: self.colore@,
            usage: self.utilizzo,
        }
    }
}

/// The views of a whole rule table, in order.
pub open spec fn rules_view(rs: Seq<Regola>) -> Seq<RuleView> {
    Seq::new(rs.len(), |i: int| rs[i]@)
}

/// The map built from the store's entries, later entries winning.
pub open spec fn store_map(s: Seq<(Piastrella, Colorazione)>) -> Map<(int, int), TileView>
    decreases s.len(),
{
    if s.len() == 0 {
        Map::empty()
    } else {
        store_map(s.drop_last()).insert(s.last().0@, s.last().1@)
    }
}

/// Well-formedness of the store: pairwise distinct coordinates, valid
/// tile states, and a length that keeps every region sum within `u64`.
pub open spec fn store_wf(s: Seq<(Piastrella, Colorazione)>) -> bool {
    &&& forall|i: int, j: int|
        0 <= i < j < s.len() ==> (#[trigger] s[i]).0@ != (#[trigger] s[j]).0@
    &&& forall|i: int|
        0 <= i < s.len() ==> crate::model::tile_view_valid((#[trigger] s[i]).1@)
    &&& s.len() <= 0xFFFF_FFFF
}

/// The plane: the tile store and the ordered rule table. The store's
/// entries carry pairwise distinct coordinates; `store_wf` is the
/// invariant that every operation preserves.
pub struct Piano {
    pub piastrelle: Vec<(Piastrella, Colorazione)>,
    pub regole: Vec<Regola>,
}

/// The keys of `store_map` are exactly the entries' coordinates, and
/// the key set is finite and no larger than the store.
pub proof fn lemma_store_map_keys(s: Seq<(Piastrella, Colorazione)>)
    ensures
        store_map(s).dom().finite(),
        store_map(s).dom().len() <= s.len(),
        forall|k: (int, int)|
            #[trigger] store_map(s).contains_key(k) <==> exists|i: int|
                0 <= i < s.len() && (#[trigger] s[i]).0@ == k,
    decreases s.len(),
{
    if s.len() == 0 {
    } else {
        lemma_store_map_keys(s.drop_last());
        assert forall|k: (int, int)| #[trigger]
            store_map(s).contains_key(k) implies exists|i: int|
            0 <= i < s.len() && (#[trigger] s[i]).0@ == k by {
            if k == s.last().0@ {
                assert((#[trigger] s[s.len() - 1]).0@ == k);
            } else {
                let i = choose|i: int| 0 <= i < s.drop_last().len() && (#[trigger] s.drop_last()[i]).0@ == k;
                assert((#[trigger] s[i]).0@ == k);
            }
        }
        assert forall|k: (int, int)|
            (exists|i: int| 0 <= i < s.len() && (#[trigger] s[i]).0@ == k) implies store_map(
            s,
        ).contains_key(k) by {
            let i = choose|i: int| 0 <= i < s.len() && (#[trigger] s[i]).0@ == k;
            if i < s.len() - 1 {
                assert((#[trigger] s.drop_last()[i]).0@ == k);
            }
        }
    }
}

/// With distinct coordinates the map returns each entry's state, and
/// the key set has exactly one key per entry.
pub proof fn lemma_store_map_vals(s: Seq<(Piastrella, Colorazione)>)
    requires
        forall|i: int, j: int|
            0 <= i < j < s.len() ==> (#[trigger] s[i]).0@ != (#[trigger] s[j]).0@,
    ensures
        store_map(s).dom().len() == s.len(),
        forall|i: int|
            0 <= i < s.len() ==> store_map(s)[(#[trigger] s[i]).0@] == s[i].1@,
    decreases s.len(),
{
    lemma_store_map_keys(s);
    if s.len() == 0 {
    } else {
        lemma_store_map_vals(s.drop_last());
        lemma_store_map_keys(s.drop_last());
        assert forall|i: int|
            0 <= i < s.len() implies store_map(s)[(#[trigger] s[i]).0@] == s[i].1@ by {
            if i < s.len() - 1 {
                assert(s[i] == s.drop_last()[i]);
                assert(s[i].0@ != s.last().0@);
            }
        }
        assert(!store_map(s.drop_last()).contains_key(s.last().0@)) by {
            if store_map(s.drop_last()).contains_key(s.last().0@) {
                let i = choose|i: int|
                    0 <= i < s.drop_last().len() && (#[trigger] s.drop_last()[i]).0@
                        == s.last().0@;
                assert((#[trigger] s[i]).0@ == s[s.len() - 1].0@);
            }
        }
    }
}

/// Coordinates outside the `i32` range never hold a tile.
pub proof fn lemma_store_map_range(s: Seq<(Piastrella, Colorazione)>)
    ensures
        forall|k: (int, int)| #[trigger]
            store_map(s).contains_key(k) ==> i32::MIN <= k.0 <= i32::MAX && i32::MIN <= k.1
                <= i32::MAX,
{
    lemma_store_map_keys(s);
    assert forall|k: (int, int)| #[trigger]
        store_map(s).contains_key(k) implies i32::MIN <= k.0 <= i32::MAX && i32::MIN <= k.1
        <= i32::MAX by {
        let i = choose|i: int| 0 <= i < s.len() && (#[trigger] s[i]).0@ == k;
    }
}

/// In a well-formed store every stored state is valid.
pub proof fn lemma_store_map_valid(s: Seq<(Piastrella, Colorazione)>)
    requires
        store_wf(s),
    ensures
        forall|k: (int, int)|
            #[trigger] store_map(s).contains_key(k) ==> crate::model::tile_view_valid(
                store_map(s)[k],
            ),
{
    lemma_store_map_keys(s);
    lemma_store_map_vals(s);
    assert forall|k: (int, int)| #[trigger]
        store_map(s).contains_key(k) implies crate::model::tile_view_valid(store_map(s)[k]) by {
        let i = choose|i: int| 0 <= i < s.len() && (#[trigger] s[i]).0@ == k;
        assert(crate::model::tile_view_valid(s[i].1@));
    }
}

impl Piano {
    /// The mathematical view of the tile store.
    pub open spec fn tiles(&self) -> Map<(int, int), TileView> {
        store_map(self.piastrelle@)
    }

    /// The views of the rule table, in order.
    pub open spec fn rules(&self) -> Seq<RuleView> {
        rules_view(self.regole@)
    }

    /// Well-formedness of the plane's tile store.
    pub open spec fn wf(&self) -> bool {
        store_wf(self.piastrelle@)
    }

    /// The tile map is finite, bounded, and holds only valid states.
    pub proof fn lemma_tiles_props(&self)
        requires
            self.wf(),
        ensures
            self.tiles().dom().finite(),
            self.tiles().dom().len() <= 0xFFFF_FFFF,
            forall|k: (int, int)|
                #[trigger] self.tiles().contains_key(k) ==> crate::model::tile_view_valid(
                    self.tiles()[k],
                ),
    {
        lemma_store_map_keys(self.piastrelle@);
        lemma_store_map_valid(self.piastrelle@);
    }

    /// Creates an empty plane: no tiles, no rules.
    pub fn new() -> (p: Piano)
        ensures
            p.wf(),
            p.tiles() =~= Map::empty(),
            p.rules() =~= Seq::empty(),
    {
        Piano { piastrelle: Vec::new(), regole: Vec::new() }
    }

    /// The index of the store entry for `(x, y)`, if the tile is lit.
    pub(crate) fn trova(&self, x: i32, y: i32) -> (r: Option<usize>)
        ensures
            match r {
                Some(i) => i < self.piastrelle@.len() && self.piastrelle@[i as int].0@ == (
                x as int,
                y as int,
                ),
                None => !self.tiles().contains_key((x as int, y as int)),
            },
    {
        let n = self.piastrelle.len();
        let mut i: usize = 0;
        while i < n
            invariant
                i <= n,
                n == self.piastrelle@.len(),
                forall|j: int| 0 <= j < i ==> (#[trigger] self.piastrelle@[j]).0@ != (
                x as int,
                y as int,
                ),
            decreases n - i,
        {
            let p = &self.piastrelle[i].0;
            if p.x == x && p.y == y {
                return Some(i);
            }
            i = i + 1;
        }
        proof {
            lemma_store_map_keys(self.piastrelle@);
        }
        None
    }

    /// The index of the store entry for wide coordinates: coordinates
    /// outside the `i32` range never hold a tile.
    pub(crate) fn cerca_larga(&self, x: i64, y: i64) -> (r: Option<usize>)
        ensures
            match r {
                Some(i) => i < self.piastrelle@.len() && self.piastrelle@[i as int].0@ == (
                x as int,
                y as int,
                ),
                None => !self.tiles().contains_key((x as int, y as int)),
            },
    {
        if x < i32::MIN as i64 || x > i32::MAX as i64 || y < i32::MIN as i64 || y > i32::MAX
            as i64 {
            proof {
                lemma_store_map_range(self.piastrelle@);
            }
            None
        } else {
            self.trova(x as i32, y as i32)
        }
    }

    /// The intensity of a lit tile.
    pub(crate) fn intensita_di(&self, x: i32, y: i32) -> (r: u32)
        requires
            self.wf(),
            self.tiles().contains_key((x as int, y as int)),
        ensures
            r == self.tiles()[(x as int, y as int)].intensity,
    {
        match self.trova(x, y) {
            Some(i) => {
                proof {
                    lemma_store_map_vals(self.piastrelle@);
                }
                self.piastrelle[i].1.intensita
            },
            None => {
                proof {
                    assert(false);
                }
                0
            },
        }
    }

    /// Lights the tile at `(x, y)` with `colore` and `intensita`,
    /// replacing whatever state the coordinate had. The color must be
    /// non-empty and the intensity positive.
    pub fn colora(&mut self, x: i32, y: i32, colore: String, intensita: u32)
        requires
            old(self).wf(),
            colore@.len() >= 1,
            intensita >= 1,
            old(self).tiles().dom().len() < 0xFFFF_FFFF,
        ensures
            final(self).wf(),
            final(self).tiles() == old(self).tiles().insert(
                (x as int, y as int),
                TileView { color: colore@, intensity: intensita },
            ),
            final(self).regole == old(self).regole,
    {
        self.inserisci(x, y, colore, intensita)
    }

    /// Writes a tile state, replacing whatever the coordinate had;
    /// the store invariant asks only for a positive intensity.
    pub(crate) fn inserisci(&mut self, x: i32, y: i32, colore: String, intensita: u32)
        requires
            old(self).wf(),
            intensita >= 1,
            old(self).tiles().contains_key((x as int, y as int)) || old(
                self,
            ).tiles().dom().len() < 0xFFFF_FFFF,
        ensures
            final(self).wf(),
            final(self).tiles() == old(self).tiles().insert(
                (x as int, y as int),
                TileView { color: colore@, intensity: intensita },
            ),
            final(self).regole == old(self).regole,
    {
        proof {
            lemma_store_map_vals(self.piastrelle@);
        }
        let chiave = Piastrella { x, y };
        let nuovo = Colorazione { colore, intensita };
        let ghost prima = self.piastrelle@;
        match self.trova(x, y) {
            Some(i) => {
                self.piastrelle[i] = (chiave, nuovo);
                proof {
                    let dopo = self.piastrelle@;
                    assert forall|j: int| 0 <= j < dopo.len() implies (#[trigger] dopo[j]).0@
                        == prima[j].0@ by {}
                    lemma_store_map_keys(prima);
                    lemma_store_map_keys(dopo);
                    lemma_store_map_vals(dopo);
                    let atteso = store_map(prima).insert((x as int, y as int), nuovo@);
                    assert forall|k: (int, int)| #[trigger]
                        store_map(dopo).contains_key(k) implies atteso.contains_key(k) by {
                        let j = choose|j: int| 0 <= j < dopo.len() && (#[trigger] dopo[j]).0@ == k;
                        assert((#[trigger] prima[j]).0@ == k);
                    }
                    assert forall|k: (int, int)| #[trigger]
                        atteso.contains_key(k) implies store_map(dopo).contains_key(k) by {
                        if k == (x as int, y as int) {
                            assert((#[trigger] dopo[i as int]).0@ == k);
                        } else {
                            let j = choose|j: int|
                                0 <= j < prima.len() && (#[trigger] prima[j]).0@ == k;
                            assert((#[trigger] dopo[j]).0@ == k);
                        }
                    }
                    assert forall|k: (int, int)| #[trigger]
                        store_map(dopo).contains_key(k) implies store_map(dopo)[k] == atteso[k] by {
                        if k == (x as int, y as int) {
                            assert(store_map(dopo)[(#[trigger] dopo[i as int]).0@]
                                == dopo[i as int].1@);
                        } else {
                            let j = choose|j: int|
                                0 <= j < dopo.len() && (#[trigger] dopo[j]).0@ == k;
                            assert(j != i as int);
                            assert(store_map(dopo)[(#[trigger] dopo[j]).0@] == dopo[j].1@);
                            assert(store_map(prima)[(#[trigger] prima[j]).0@] == prima[j].1@);
                        }
                    }
                    assert(store_map(dopo) =~= atteso);
                }
            },
            None => {
                proof {
                    lemma_store_map_keys(prima);
                    lemma_store_map_vals(prima);
                }
                self.piastrelle.push((chiave, nuovo));
                proof {
                    let dopo = self.piastrelle@;
                    assert(dopo.drop_last() =~= prima);
                    assert(dopo.last() == (chiave, nuovo));
                    assert(store_map(dopo) == store_map(prima).insert((x as int, y as int), nuovo@));
                    assert forall|i: int, j: int|
                        0 <= i < j < dopo.len() implies (#[trigger] dopo[i]).0@ != (
                    #[trigger] dopo[j]).0@ by {
                        if j == dopo.len() - 1 {
                            assert(store_map(prima).contains_key(dopo[i].0@));
                        }
                    }
                }
            },
        }
    }

    /// Turns the tile at `(x, y)` off; a no-op if it is already off.
    pub fn spegni(&mut self, x: i32, y: i32)
        requires
            old(self).wf(),
        ensures
            final(self).wf(),
            final(self).tiles() == old(self).tiles().remove((x as int, y as int)),
            final(self).regole == old(self).regole,
    {
        let ghost prima = self.piastrelle@;
        match self.trova(x, y) {
            Some(i) => {
                self.piastrelle.remove(i);
                proof {
                    let dopo = self.piastrelle@;
                    lemma_store_map_keys(prima);
                    lemma_store_map_vals(prima);
                    lemma_store_map_keys(dopo);
                    lemma_store_map_vals(dopo);
                    assert forall|k: (int, int)| #[trigger]
                        store_map(dopo).contains_key(k) implies store_map(prima).remove(
                        (x as int, y as int),
                    ).contains_key(k) by {
                        let j = choose|j: int| 0 <= j < dopo.len() && (#[trigger] dopo[j]).0@ == k;
                        if j < i as int {
                            assert((#[trigger] prima[j]).0@ == k);
                        } else {
                            assert((#[trigger] prima[j + 1]).0@ == k);
                        }
                    }
                    assert forall|k: (int, int)| #[trigger]
                        store_map(prima).remove((x as int, y as int)).contains_key(
                        k,
                    ) implies store_map(dopo).contains_key(k) by {
                        let j = choose|j: int| 0 <= j < prima.len() && (#[trigger] prima[j]).0@ == k;
                        if j < i as int {
                            assert((#[trigger] dopo[j]).0@ == k);
                        } else {
                            assert(j != i as int);
                            assert((#[trigger] dopo[j - 1]).0@ == k);
                        }
                    }
                    assert forall|k: (int, int)| #[trigger]
                        store_map(dopo).contains_key(k) implies store_map(dopo)[k] == store_map(
                        prima,
                    ).remove((x as int, y as int))[k] by {
                        let j = choose|j: int| 0 <= j < dopo.len() && (#[trigger] dopo[j]).0@ == k;
                        if j < i as int {
                            assert((#[trigger] prima[j]).0@ == k);
                        } else {
                            assert((#[trigger] prima[j + 1]).0@ == k);
                        }
                    }
                    assert(store_map(dopo) =~= store_map(prima).remove((x as int, y as int)));
                }
            },
            None => {
                proof {
                    assert(store_map(prima).remove((x as int, y as int)) =~= store_map(prima));
                }
            },
        }
    }

    /// Returns the state of the tile at `(x, y)`, or `None` if it is
    /// off. Never fails.
    pub fn stato(&self, x: i32, y: i32) -> (r: Option<Colorazione>)
        requires
            self.wf(),
        ensures
            match r {
                Some(c) => self.tiles().contains_key((x as int, y as int)) && c@ == self.tiles()[
                    (x as int, y as int)
                ],
                None => !self.tiles().contains_key((x as int, y as int)),
            },
    {
        proof {
            lemma_store_map_keys(self.piastrelle@);
            lemma_store_map_vals(self.piastrelle@);
        }
        match self.trova(x, y) {
            Some(i) => {
                let c = &self.piastrelle[i].1;
                Some(Colorazione { colore: c.colore.clone(), intensita: c.intensita })
            },
            None => None,
        }
    }
}

} // verus!
