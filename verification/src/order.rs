//! Re-ranking the rule table: a stable ascending sort by usage count,
//! so that over-used rules drop to lower priority while rules of equal
//! usage keep their relative order.

use crate::model::RuleView;
use crate::plane::rules_view;
use crate::plane::Piano;
use vstd::prelude::*;

verus! {

/// Usage counts never decrease along the sequence.
pub open spec fn sorted_by_usage(s: Seq<RuleView>) -> bool {
    forall|i: int, j: int|
        0 <= i <= j < s.len() ==> (#[trigger] s[i]).usage <= (#[trigger] s[j]).usage
}

/// `x` placed after every element with usage at most `x.usage` and
/// before every later element: the stable insertion step.
pub open spec fn place_last(s: Seq<RuleView>, x: RuleView) -> Seq<RuleView>
    decreases s.len(),
{
    if s.len() == 0 {
        seq![x]
    } else if s.last().usage <= x.usage {
        s.push(x)
    } else {
        place_last(s.drop_last(), x).push(s.last())
    }
}

/// The stable ascending sort by usage: each element in turn placed
/// into the sorted prefix.
pub open spec fn sort_rules(s: Seq<RuleView>) -> Seq<RuleView>
    decreases s.len(),
{
    if s.len() == 0 {
        Seq::empty()
    } else {
        place_last(sort_rules(s.drop_last()), s.last())
    }
}

/// Placing into a sorted sequence at the least index whose element's
/// usage exceeds the new element's splices it in there.
pub proof fn lemma_place_last_at(s: Seq<RuleView>, x: RuleView, p: int)
    requires
        sorted_by_usage(s),
        0 <= p <= s.len(),
        forall|k: int| 0 <= k < p ==> (#[trigger] s[k]).usage <= x.usage,
        p < s.len() ==> s[p].usage > x.usage,
    ensures
        place_last(s, x) == s.take(p) + seq![x] + s.skip(p),
    decreases s.len(),
{
    if s.len() == 0 {
        assert(place_last(s, x) =~= s.take(p) + seq![x] + s.skip(p));
    } else if s.last().usage <= x.usage {
        assert(p == s.len()) by {
            if p < s.len() {
                assert(s[p].usage <= s[s.len() - 1].usage);
            }
        }
        assert(place_last(s, x) =~= s.take(p) + seq![x] + s.skip(p));
    } else {
        assert(p < s.len()) by {
            if p == s.len() {
                assert((#[trigger] s[s.len() - 1]).usage <= x.usage);
            }
        }
        let d = s.drop_last();
        assert(sorted_by_usage(d)) by {
            assert(forall|i: int| 0 <= i < d.len() ==> d[i] == #[trigger] s[i]);
        }
        assert(forall|k: int| 0 <= k < p ==> (#[trigger] d[k]).usage <= x.usage) by {
            assert(forall|k: int| 0 <= k < p ==> d[k] == #[trigger] s[k]);
        }
        assert(p < d.len() ==> d[p].usage > x.usage);
        lemma_place_last_at(d, x, p);
        assert(place_last(s, x) == (d.take(p) + seq![x] + d.skip(p)).push(s.last()));
        assert(d.take(p) =~= s.take(p));
        assert(d.skip(p).push(s.last()) =~= s.skip(p));
        assert((d.take(p) + seq![x] + d.skip(p)).push(s.last()) =~= s.take(p) + seq![x] + s.skip(
            p,
        ));
    }
}

/// The stable insertion step keeps the sequence sorted.
pub proof fn lemma_place_last_sorted(s: Seq<RuleView>, x: RuleView)
    requires
        sorted_by_usage(s),
    ensures
        sorted_by_usage(place_last(s, x)),
    decreases s.len(),
{
    if s.len() == 0 {
    } else if s.last().usage <= x.usage {
        assert forall|i: int, j: int|
            0 <= i <= j < s.push(x).len() implies (#[trigger] s.push(x)[i]).usage <= (
        #[trigger] s.push(x)[j]).usage by {
            if j < s.len() {
            } else {
                if i < s.len() {
                    assert(s[i].usage <= s[s.len() - 1].usage);
                }
            }
        }
    } else {
        let d = s.drop_last();
        assert(sorted_by_usage(d)) by {
            assert(forall|i: int| 0 <= i < d.len() ==> d[i] == #[trigger] s[i]);
        }
        lemma_place_last_sorted(d, x);
        let q = place_last(d, x);
        assert forall|i: int, j: int|
            0 <= i <= j < q.push(s.last()).len() implies (#[trigger] q.push(s.last())[i]).usage
            <= (#[trigger] q.push(s.last())[j]).usage by {
            if j == q.len() {
                if i < q.len() {
                    assert(q[i].usage <= s.last().usage) by {
                        lemma_place_last_elems(d, x, i);
                        if q[i] != x {
                            let k = choose|k: int| 0 <= k < d.len() && q[i] == d[k];
                            assert(d[k] == s[k]);
                            assert(s[k].usage <= s[s.len() - 1].usage);
                        }
                    }
                }
            }
        }
    }
}

/// Every element of a placed sequence is the new element or one of
/// the old ones.
proof fn lemma_place_last_elems(s: Seq<RuleView>, x: RuleView, i: int)
    requires
        0 <= i < place_last(s, x).len(),
    ensures
        place_last(s, x)[i] == x || exists|k: int| 0 <= k < s.len() && place_last(s, x)[i] == s[k],
    decreases s.len(),
{
    if s.len() == 0 {
    } else if s.last().usage <= x.usage {
        if i < s.len() {
            assert(place_last(s, x)[i] == s[i]);
        }
    } else {
        let d = s.drop_last();
        let q = place_last(d, x);
        if i < q.len() {
            lemma_place_last_elems(d, x, i);
            if q[i] != x {
                let k = choose|k: int| 0 <= k < d.len() && q[i] == d[k];
                assert(place_last(s, x)[i] == s[k]);
            }
        } else {
            assert(place_last(s, x)[i] == s[s.len() - 1]);
        }
    }
}

/// Placing adds exactly one element.
pub proof fn lemma_place_last_len(s: Seq<RuleView>, x: RuleView)
    ensures
        place_last(s, x).len() == s.len() + 1,
    decreases s.len(),
{
    if s.len() > 0 && s.last().usage > x.usage {
        lemma_place_last_len(s.drop_last(), x);
    }
}

/// The sort keeps the length.
pub proof fn lemma_sort_rules_len(s: Seq<RuleView>)
    ensures
        sort_rules(s).len() == s.len(),
    decreases s.len(),
{
    if s.len() > 0 {
        lemma_sort_rules_len(s.drop_last());
        lemma_place_last_len(sort_rules(s.drop_last()), s.last());
    }
}

/// The sort's result is sorted.
pub proof fn lemma_sort_rules_sorted(s: Seq<RuleView>)
    ensures
        sorted_by_usage(sort_rules(s)),
    decreases s.len(),
{
    if s.len() > 0 {
        lemma_sort_rules_sorted(s.drop_last());
        lemma_place_last_sorted(sort_rules(s.drop_last()), s.last());
    }
}

impl Piano {
    /// Stably re-sorts the rule table by ascending usage count; rules
    /// of equal usage keep their relative order.
    pub fn ordina(&mut self)
        ensures
            final(self).piastrelle == old(self).piastrelle,
            rules_view(final(self).regole@) == sort_rules(rules_view(old(self).regole@)),
    {
        let ghost rv = rules_view(self.regole@);
        let n = self.regole.len();
        let mut i: usize = 1;
        proof {
            if rv.len() >= 1 {
                let t1 = rv.take(1);
                assert(t1.drop_last() =~= Seq::<RuleView>::empty());
                assert(sort_rules(t1.drop_last()) == Seq::<RuleView>::empty());
                assert(sort_rules(t1) == place_last(sort_rules(t1.drop_last()), t1.last()));
                assert(sort_rules(t1) == seq![t1.last()]);
                assert(sort_rules(t1) =~= t1);
            }
            if rv.len() == 0 {
                assert(rules_view(self.regole@) =~= sort_rules(rv));
            } else {
                assert(rules_view(self.regole@) =~~= sort_rules(rv.take(1)) + rv.skip(1));
            }
        }
        if n <= 1 {
            proof {
                if n == 1 {
                    assert(rv.take(1) =~= rv);
                    assert(rv.skip(1) =~= Seq::<RuleView>::empty());
                    assert(rules_view(self.regole@) =~~= sort_rules(rv));
                }
            }
            return ;
        }
        while i < n
            invariant
                1 <= i <= n,
                n == self.regole@.len(),
                rv.len() == n,
                self.piastrelle == old(self).piastrelle,
                rules_view(self.regole@) == sort_rules(rv.take(i as int)) + rv.skip(i as int),
            decreases n - i,
        {
            proof {
                lemma_sort_rules_sorted(rv.take(i as int));
                lemma_sort_rules_len(rv.take(i as int));
            }
            let ghost prima = self.regole@;
            let x = self.regole.remove(i);
            let ghost xs = rules_view(self.regole@);
            let ghost pre = sort_rules(rv.take(i as int));
            proof {
                assert(x@ == rv[i as int]) by {
                    assert(rules_view(prima)[i as int] == (pre + rv.skip(i as int))[i as int]);
                    assert((pre + rv.skip(i as int))[i as int] == rv.skip(i as int)[0]);
                }
                assert forall|k: int| 0 <= k < xs.len() implies xs[k] == (pre + rv.skip(
                    i as int + 1,
                ))[k] by {
                    if k < i as int {
                        assert(xs[k] == rules_view(prima)[k]);
                        assert(rules_view(prima)[k] == (pre + rv.skip(i as int))[k]);
                    } else {
                        assert(xs[k] == rules_view(prima)[k + 1]);
                        assert(rules_view(prima)[k + 1] == (pre + rv.skip(i as int))[k + 1]);
                        assert((pre + rv.skip(i as int))[k + 1] == rv[k + 1]);
                        assert((pre + rv.skip(i as int + 1))[k] == rv[k + 1]);
                    }
                }
                assert(xs =~= pre + rv.skip(i as int + 1));
            }
            let mut p: usize = 0;
            while p < i && self.regole[p].utilizzo <= x.utilizzo
                invariant
                    0 <= p <= i,
                    i < n,
                    n == rv.len(),
                    self.regole@.len() == n - 1,
                    rules_view(self.regole@) == pre + rv.skip(i as int + 1),
                    pre.len() == i,
                    forall|k: int| 0 <= k < p ==> (#[trigger] pre[k]).usage <= x@.usage,
                decreases i - p,
            {
                proof {
                    assert(rules_view(self.regole@)[p as int] == pre[p as int]);
                }
                p = p + 1;
            }
            proof {
                if p < i {
                    assert(rules_view(self.regole@)[p as int] == pre[p as int]);
                    assert(pre[p as int].usage > x@.usage);
                }
                lemma_place_last_at(pre, x@, p as int);
            }
            self.regole.insert(p, x);
            proof {
                assert(rules_view(self.regole@) =~~= (pre + rv.skip(i as int + 1)).insert(
                    p as int,
                    x@,
                ));
                assert(rv.take(i as int + 1).drop_last() =~= rv.take(i as int));
                assert(rv.take(i as int + 1).last() == rv[i as int]);
                assert(sort_rules(rv.take(i as int + 1)) == place_last(pre, x@));
                assert(rules_view(self.regole@) =~~= sort_rules(rv.take(i as int + 1)) + rv.skip(
                    i as int + 1,
                )) by {
                    assert(place_last(pre, x@) == pre.take(p as int) + seq![x@] + pre.skip(
                        p as int,
                    ));
                    assert((pre + rv.skip(i as int + 1)).insert(p as int, x@) =~~= (pre.take(
                        p as int,
                    ) + seq![x@] + pre.skip(p as int)) + rv.skip(i as int + 1));
                }
            }
            i = i + 1;
        }
        proof {
            assert(rv.take(n as int) =~= rv);
            assert(rv.skip(n as int) =~= Seq::<RuleView>::empty());
            assert(rules_view(self.regole@) =~~= sort_rules(rv));
        }
    }
}

} // verus!
