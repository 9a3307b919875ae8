//! The laws the plane obeys, stated over the same model that the
//! operations' contracts use and proved once and for all.

use crate::model::region_reach;
use crate::model::region_set;
use crate::model::region_sum;
use crate::model::uniform_path;
use crate::model::valid_path;
use crate::model::RuleView;
use crate::model::TileView;
use crate::order::place_last;
use crate::order::sort_rules;
use crate::order::sorted_by_usage;
use crate::paths::path_cost;
use crate::propagate::block_result;
use crate::propagate::first_match;
use vstd::prelude::*;
use vstd::seq_lib::group_to_multiset_ensures;

verus! {

/// Clearing a coordinate leaves it absent: after `spegni`, whose
/// result map is `m.remove(c)`, a `stato` query at `c` finds nothing.
pub proof fn law_spegni_poi_assente(m: Map<(int, int), TileView>, c: (int, int))
    ensures
        !m.remove(c).contains_key(c),
{
}

/// Setting a tile makes a `stato` query return exactly what was set,
/// and a second `colora` fully replaces the first: no accumulation.
pub proof fn law_colora_poi_stato(
    m: Map<(int, int), TileView>,
    c: (int, int),
    t1: TileView,
    t2: TileView,
)
    ensures
        m.insert(c, t1).contains_key(c),
        m.insert(c, t1)[c] == t1,
        m.insert(c, t1).insert(c, t2) == m.insert(c, t2),
{
    assert(m.insert(c, t1).insert(c, t2) =~= m.insert(c, t2));
}

/// The homogeneous region is always a subset of the general one.
pub proof fn law_regione_omogenea_inclusa(m: Map<(int, int), TileView>, s: (int, int))
    ensures
        region_set(m, s, true).subset_of(region_set(m, s, false)),
{
    assert forall|c: (int, int)| region_set(m, s, true).contains(c) implies region_set(
        m,
        s,
        false,
    ).contains(c) by {
        let p = choose|p: Seq<(int, int)>|
            {
                &&& #[trigger] valid_path(m, p)
                &&& p.first() == s
                &&& p.last() == c
                &&& true ==> uniform_path(m, p, m[s].color)
            };
        assert(valid_path(m, p) && p.first() == s && p.last() == c && (false ==> uniform_path(
            m,
            p,
            m[s].color,
        )));
    }
}

/// When every tile of a block shares the start tile's color, the
/// homogeneous and the general region coincide, members and totals
/// alike.
pub proof fn law_blocco_uniforme(m: Map<(int, int), TileView>, s: (int, int))
    requires
        forall|c: (int, int)|
            #[trigger] region_set(m, s, false).contains(c) ==> m[c].color == m[s].color,
    ensures
        region_set(m, s, true) == region_set(m, s, false),
        region_sum(m, region_set(m, s, true)) == region_sum(m, region_set(m, s, false)),
{
    law_regione_omogenea_inclusa(m, s);
    assert forall|c: (int, int)| region_set(m, s, false).contains(c) implies region_set(
        m,
        s,
        true,
    ).contains(c) by {
        let p = choose|p: Seq<(int, int)>|
            {
                &&& #[trigger] valid_path(m, p)
                &&& p.first() == s
                &&& p.last() == c
                &&& false ==> uniform_path(m, p, m[s].color)
            };
        assert forall|i: int| 0 <= i < p.len() implies m[#[trigger] p[i]].color == m[s].color by {
            let q = p.take(i + 1);
            assert(valid_path(m, q)) by {
                assert(forall|j: int| 0 <= j < q.len() ==> q[j] == #[trigger] p[j]);
            }
            assert(q.first() == s && q.last() == p[i]);
            assert(region_reach(m, s, p[i], false)) by {
                assert(valid_path(m, q) && q.first() == s && q.last() == p[i] && (false
                    ==> uniform_path(m, q, m[s].color)));
            }
            assert(region_set(m, s, false).contains(p[i]));
        }
        assert(uniform_path(m, p, m[s].color));
        assert(valid_path(m, p) && p.first() == s && p.last() == c && (true ==> uniform_path(
            m,
            p,
            m[s].color,
        )));
    }
    assert(region_set(m, s, true) =~= region_set(m, s, false));
}

/// The block total only depends on which tiles are lit and on their
/// intensities: color changes that keep the lit set and intensities
/// leave both the region and its total unchanged.
pub proof fn law_totale_blocco_stabile(
    m1: Map<(int, int), TileView>,
    m2: Map<(int, int), TileView>,
    s: (int, int),
)
    requires
        m1.dom() == m2.dom(),
        m1.dom().finite(),
        forall|c: (int, int)| #[trigger] m1.contains_key(c) ==> m1[c].intensity == m2[c].intensity,
    ensures
        region_set(m1, s, false) == region_set(m2, s, false),
        region_sum(m1, region_set(m1, s, false)) == region_sum(m2, region_set(m2, s, false)),
{
    assert forall|c: (int, int)|
        region_set(m1, s, false).contains(c) == region_set(m2, s, false).contains(c) by {
        if region_reach(m1, s, c, false) {
            let p = choose|p: Seq<(int, int)>|
                {
                    &&& #[trigger] valid_path(m1, p)
                    &&& p.first() == s
                    &&& p.last() == c
                    &&& false ==> uniform_path(m1, p, m1[s].color)
                };
            assert(valid_path(m2, p)) by {
                assert(forall|i: int|
                    0 <= i < p.len() ==> m1.contains_key(#[trigger] p[i]) == m2.contains_key(
                        p[i],
                    ));
            }
            assert(valid_path(m2, p) && p.first() == s && p.last() == c && (false ==> uniform_path(
                m2,
                p,
                m2[s].color,
            )));
        }
        if region_reach(m2, s, c, false) {
            let p = choose|p: Seq<(int, int)>|
                {
                    &&& #[trigger] valid_path(m2, p)
                    &&& p.first() == s
                    &&& p.last() == c
                    &&& false ==> uniform_path(m2, p, m2[s].color)
                };
            assert(valid_path(m1, p)) by {
                assert(forall|i: int|
                    0 <= i < p.len() ==> m1.contains_key(#[trigger] p[i]) == m2.contains_key(
                        p[i],
                    ));
            }
            assert(valid_path(m1, p) && p.first() == s && p.last() == c && (false ==> uniform_path(
                m1,
                p,
                m1[s].color,
            )));
        }
    }
    assert(region_set(m1, s, false) =~= region_set(m2, s, false));
    let reg = region_set(m1, s, false);
    assert(reg.finite()) by {
        crate::model::lemma_reach_is_lit(m1, s, false);
        assert(reg.subset_of(m1.dom()));
        vstd::set_lib::lemma_set_subset_finite(m1.dom(), reg);
    }
    crate::model::lemma_region_sum_congruence(m1, m2, reg);
}

/// The homogeneous block total is likewise stable under recolorings
/// that keep the lit set, the intensities, and the block's uniform
/// color: with both regions uniform the homogeneous totals agree.
pub proof fn law_totale_omogeneo_stabile(
    m1: Map<(int, int), TileView>,
    m2: Map<(int, int), TileView>,
    s: (int, int),
)
    requires
        m1.dom() == m2.dom(),
        m1.dom().finite(),
        forall|c: (int, int)| #[trigger] m1.contains_key(c) ==> m1[c].intensity == m2[c].intensity,
        forall|c: (int, int)|
            #[trigger] region_set(m1, s, false).contains(c) ==> m1[c].color == m1[s].color,
        forall|c: (int, int)|
            #[trigger] region_set(m2, s, false).contains(c) ==> m2[c].color == m2[s].color,
    ensures
        region_sum(m1, region_set(m1, s, true)) == region_sum(m2, region_set(m2, s, true)),
{
    law_blocco_uniforme(m1, s);
    law_blocco_uniforme(m2, s);
    law_totale_blocco_stabile(m1, m2, s);
}

/// Propagating a block gives every member exactly the outcome that a
/// single propagation, evaluated against the same snapshot, gives it:
/// the first applicable rule's color with the intensity kept, or no
/// change when no rule applies. No recoloring inside the block can
/// feed another member's match.
pub proof fn law_propaga_blocco_come_singoli(
    m: Map<(int, int), TileView>,
    rules: Seq<RuleView>,
    start: (int, int),
    c: (int, int),
)
    requires
        region_set(m, start, false).contains(c),
    ensures
        block_result(m, rules, start, c) == (match first_match(m, rules, c) {
            Some(esito) => TileView { color: esito.1, intensity: m[c].intensity },
            None => m[c],
        }),
{
}

/// The predicate that keeps exactly the rules of one usage count.
pub open spec fn usage_is(u: u64) -> spec_fn(RuleView) -> bool {
    |r: RuleView| r.usage == u
}

/// The stable insertion step adds exactly its element to the bag.
proof fn lemma_place_last_multiset(s: Seq<RuleView>, x: RuleView)
    ensures
        place_last(s, x).to_multiset() == s.to_multiset().insert(x),
    decreases s.len(),
{
    broadcast use group_to_multiset_ensures;

    if s.len() == 0 {
        assert(place_last(s, x) =~= Seq::<RuleView>::empty().push(x));
    } else if s.last().usage <= x.usage {
    } else {
        lemma_place_last_multiset(s.drop_last(), x);
        assert(s.drop_last().push(s.last()) =~= s);
        assert(place_last(s, x).to_multiset() =~= s.to_multiset().insert(x));
    }
}

/// The stable insertion step keeps the matching rules of every usage
/// count in order: the new element goes last among its equals.
proof fn lemma_place_last_filter(s: Seq<RuleView>, x: RuleView, u: u64)
    requires
        sorted_by_usage(s),
    ensures
        place_last(s, x).filter(usage_is(u)) == (if x.usage == u {
            s.filter(usage_is(u)).push(x)
        } else {
            s.filter(usage_is(u))
        }),
    decreases s.len(),
{
    reveal_with_fuel(Seq::<RuleView>::filter, 4);
    let pu = usage_is(u);
    if s.len() == 0 {
        assert(s =~= Seq::<RuleView>::empty());
        assert(place_last(s, x) =~= Seq::<RuleView>::empty().push(x));
        assert(Seq::<RuleView>::empty().push(x).drop_last() =~= Seq::<RuleView>::empty());
        assert(place_last(s, x).filter(pu) == (if pu(x) {
            s.filter(pu).push(x)
        } else {
            s.filter(pu)
        }));
    } else if s.last().usage <= x.usage {
        assert(s.push(x).drop_last() =~= s);
        assert(place_last(s, x).filter(pu) == (if pu(x) {
            s.filter(pu).push(x)
        } else {
            s.filter(pu)
        }));
    } else {
        let d = s.drop_last();
        assert(sorted_by_usage(d)) by {
            assert(forall|i: int| 0 <= i < d.len() ==> d[i] == #[trigger] s[i]);
        }
        lemma_place_last_filter(d, x, u);
        let q = place_last(d, x);
        assert(place_last(s, x) == q.push(s.last()));
        assert(q.push(s.last()).drop_last() =~= q);
        if x.usage == u {
            assert(!pu(s.last()));
            assert(place_last(s, x).filter(pu) == q.filter(pu));
            assert(s.filter(pu) == d.filter(pu)) by {
                assert(s.drop_last() == d);
            }
        } else {
            assert(place_last(s, x).filter(pu) == (if pu(s.last()) {
                q.filter(pu).push(s.last())
            } else {
                q.filter(pu)
            }));
            assert(s.filter(pu) == (if pu(s.last()) {
                d.filter(pu).push(s.last())
            } else {
                d.filter(pu)
            }));
        }
    }
}

/// Re-ranking the rules sorts them by ascending usage, keeps exactly
/// the same rules, and preserves the relative order of rules with
/// equal usage: for every usage count the matching subsequence is
/// untouched.
pub proof fn law_ordina_stabile(s: Seq<RuleView>)
    ensures
        sorted_by_usage(sort_rules(s)),
        sort_rules(s).to_multiset() == s.to_multiset(),
        forall|u: u64|
            #[trigger] sort_rules(s).filter(usage_is(u)) == s.filter(usage_is(u)),
    decreases s.len(),
{
    broadcast use group_to_multiset_ensures;

    reveal_with_fuel(Seq::<RuleView>::filter, 4);
    crate::order::lemma_sort_rules_sorted(s);
    if s.len() == 0 {
    } else {
        let d = s.drop_last();
        law_ordina_stabile(d);
        lemma_place_last_multiset(sort_rules(d), s.last());
        assert(d.push(s.last()) =~= s);
        assert(sort_rules(s).to_multiset() =~= s.to_multiset());
        assert forall|u: u64| #[trigger]
            sort_rules(s).filter(usage_is(u)) == s.filter(usage_is(u)) by {
            crate::order::lemma_sort_rules_sorted(d);
            lemma_place_last_filter(sort_rules(d), s.last(), u);
            assert(s.drop_last() == d);
            assert(s.filter(usage_is(u)) == (if usage_is(u)(s.last()) {
                d.filter(usage_is(u)).push(s.last())
            } else {
                d.filter(usage_is(u))
            }));
        }
    }
}

/// A search from a tile to itself costs exactly the tile's own
/// intensity: the one-tile path achieves it and no path does better.
pub proof fn law_cammino_su_se_stesso(m: Map<(int, int), TileView>, c: (int, int))
    requires
        m.contains_key(c),
    ensures
        exists|p: Seq<(int, int)>|
            #[trigger] valid_path(m, p) && p.first() == c && p.last() == c && path_cost(m, p)
                == m[c].intensity,
        forall|p: Seq<(int, int)>|
            #[trigger] valid_path(m, p) && p.first() == c && p.last() == c ==> path_cost(m, p)
                >= m[c].intensity,
{
    let p0 = seq![c];
    assert(valid_path(m, p0));
    assert(p0.drop_last() =~= Seq::<(int, int)>::empty());
    assert(path_cost(m, p0.drop_last()) == 0);
    assert(p0.last() == c);
    assert(path_cost(m, p0) == m[c].intensity);
    assert forall|p: Seq<(int, int)>|
        #[trigger] valid_path(m, p) && p.first() == c && p.last() == c implies path_cost(m, p)
        >= m[c].intensity by {
        crate::paths::lemma_path_cost_prefix(m, p, 1);
        assert(p.take(1).drop_last() =~= Seq::<(int, int)>::empty());
        assert(path_cost(m, p.take(1).drop_last()) == 0);
        assert(p.take(1).last() == p[0]);
        assert(path_cost(m, p.take(1)) == m[p[0]].intensity);
    }
}

} // verus!
