//! The rule language: parsing rule definitions and rendering the rule
//! table.
//!
//! A definition reads `colore (soglia colore)+`, space-separated, with
//! every threshold a decimal integer between zero and eight. Whether
//! the thresholds' sum is additionally capped at eight is a policy the
//! caller chooses when parsing.

use crate::model::ReqView;
use crate::model::RuleView;
use crate::plane::rules_view;
use crate::plane::Piano;
use crate::plane::Regola;
use crate::plane::Requisito;
use crate::text::parse_soglia;
use crate::text::parse_threshold;
use crate::text::split_sp;
use crate::text::split_spazi;
use vstd::prelude::*;
use vstd::string::StringExecFns;

verus! {

/// The ways a rule definition can be malformed.
#[derive(PartialEq, Eq, Structural, Clone, Copy, Debug)]
pub enum RegolaInvalida {
    /// No threshold/color pair at all.
    MancanzaCoefficienti,
    /// A threshold without its color: the tokens after the target
    /// color have odd length.
    CoppieMalformate,
    /// A threshold that is not a decimal integer between zero and
    /// eight.
    CoefficienteInvalido,
    /// The thresholds sum to more than the eight available neighbors;
    /// reported only when the cap is requested.
    SommaEccessiva,
}

/// The requirement views read from the token pairs at `k`, `k + 2`,
/// ..., scanning left to right and stopping at the first bad
/// threshold.
pub open spec fn parse_reqs(toks: Seq<Seq<char>>, k: int) -> Result<Seq<ReqView>, RegolaInvalida>
    decreases toks.len() + 1 - k,
{
    if k < 0 || k >= toks.len() {
        Ok(Seq::empty())
    } else {
        match parse_threshold(toks[k]) {
            None => Err(RegolaInvalida::CoefficienteInvalido),
            Some(c) => match parse_reqs(toks, k + 2) {
                Ok(rest) => Ok(seq![ReqView { threshold: c, color: toks[k + 1] }] + rest),
                Err(e) => Err(e),
            },
        }
    }
}

/// The sum of a requirement list's thresholds.
pub open spec fn sum_thresholds(reqs: Seq<ReqView>) -> int
    decreases reqs.len(),
{
    if reqs.len() == 0 {
        0
    } else {
        sum_thresholds(reqs.drop_last()) + reqs.last().threshold
    }
}

/// Threshold sums are never negative.
pub proof fn lemma_sum_thresholds_nonneg(reqs: Seq<ReqView>)
    ensures
        sum_thresholds(reqs) >= 0,
    decreases reqs.len(),
{
    if reqs.len() > 0 {
        lemma_sum_thresholds_nonneg(reqs.drop_last());
    }
}

/// The meaning of a rule definition: the rule it describes, or the
/// first way in which it is malformed. With `cap` set, definitions
/// whose thresholds sum to more than eight are also rejected.
pub open spec fn parse_rule(s: Seq<char>, cap: bool) -> Result<RuleView, RegolaInvalida> {
    let toks = split_sp(s);
    if toks.len() <= 2 {
        Err(RegolaInvalida::MancanzaCoefficienti)
    } else if toks.len() % 2 == 0 {
        Err(RegolaInvalida::CoppieMalformate)
    } else {
        match parse_reqs(toks, 1) {
            Err(e) => Err(e),
            Ok(reqs) => if cap && sum_thresholds(reqs) > 8 {
                Err(RegolaInvalida::SommaEccessiva)
            } else {
                Ok(RuleView { reqs, color: toks[0], usage: 0 })
            },
        }
    }
}

/// The views of a requirement list, in order.
pub open spec fn reqs_view(rs: Seq<Requisito>) -> Seq<ReqView> {
    Seq::new(rs.len(), |i: int| rs[i]@)
}

impl Regola {
    /// Reads a rule definition. With `limite_somma` set, definitions
    /// whose thresholds sum to more than eight are also rejected.
    pub fn parse(testo: &str, limite_somma: bool) -> (r: Result<Regola, RegolaInvalida>)
        ensures
            match r {
                Ok(rg) => parse_rule(testo@, limite_somma) == Ok::<RuleView, RegolaInvalida>(rg@),
                Err(e) => parse_rule(testo@, limite_somma) == Err::<RuleView, RegolaInvalida>(e),
            },
    {
        let toks = split_spazi(testo);
        let ghost vt = toks.deep_view();
        if toks.len() <= 2 {
            return Err(RegolaInvalida::MancanzaCoefficienti);
        }
        if toks.len() % 2 == 0 {
            return Err(RegolaInvalida::CoppieMalformate);
        }
        let mut requisiti: Vec<Requisito> = Vec::new();
        let mut somma: u32 = 0;
        let mut k: usize = 1;
        proof {
            assert(reqs_view(requisiti@) =~= Seq::<ReqView>::empty());
        }
        while k < toks.len()
            invariant
                1 <= k <= vt.len() + 1,
                k % 2 == 1,
                vt == split_sp(testo@),
                vt.len() % 2 == 1,
                vt.len() > 2,
                toks@.len() == vt.len(),
                toks.deep_view() == vt,
                requisiti@.len() * 2 + 1 == k,
                somma as int == (if sum_thresholds(reqs_view(requisiti@)) < 9 {
                    sum_thresholds(reqs_view(requisiti@))
                } else {
                    9int
                }),
                match parse_reqs(vt, k as int) {
                    Ok(rest) => parse_reqs(vt, 1) == Ok::<Seq<ReqView>, RegolaInvalida>(
                        reqs_view(requisiti@) + rest,
                    ),
                    Err(e) => parse_reqs(vt, 1) == Err::<Seq<ReqView>, RegolaInvalida>(e),
                },
            decreases vt.len() - k,
        {
            proof {
                assert(vt[k as int] == toks@[k as int]@);
                assert(vt[k as int + 1] == toks@[k as int + 1]@);
            }
            let soglia = match parse_soglia(toks[k].as_str()) {
                Some(v) => v,
                None => {
                    proof {
                        assert(parse_reqs(vt, k as int) == Err::<Seq<ReqView>, RegolaInvalida>(
                            RegolaInvalida::CoefficienteInvalido,
                        ));
                    }
                    return Err(RegolaInvalida::CoefficienteInvalido);
                },
            };
            let colore = toks[k + 1].clone();
            let ghost prima = requisiti@;
            requisiti.push(Requisito { coefficiente: soglia, colore });
            proof {
                lemma_sum_thresholds_nonneg(reqs_view(prima));
                assert(reqs_view(requisiti@) =~~= reqs_view(prima) + seq![
                    ReqView { threshold: soglia, color: vt[k as int + 1] },
                ]);
                assert(reqs_view(requisiti@).drop_last() =~~= reqs_view(prima));
                assert(sum_thresholds(reqs_view(requisiti@)) == sum_thresholds(reqs_view(prima))
                    + soglia);
                match parse_reqs(vt, k as int + 2) {
                    Ok(rest) => {
                        assert(parse_reqs(vt, 1) == Ok::<Seq<ReqView>, RegolaInvalida>(
                            reqs_view(prima) + (seq![
                                ReqView { threshold: soglia, color: vt[k as int + 1] },
                            ] + rest),
                        ));
                        assert(reqs_view(prima) + (seq![
                            ReqView { threshold: soglia, color: vt[k as int + 1] },
                        ] + rest) =~= reqs_view(requisiti@) + rest);
                    },
                    Err(_) => {},
                }
            }
            if somma < 9 {
                let nuova = somma + soglia as u32;
                somma = if nuova > 9 {
                    9
                } else {
                    nuova
                };
            }
            k = k + 2;
        }
        if limite_somma && somma > 8 {
            return Err(RegolaInvalida::SommaEccessiva);
        }
        let colore = toks[0].clone();
        let rg = Regola { requisiti, colore, utilizzo: 0 };
        proof {
            assert(vt[0] == toks@[0]@);
            assert(parse_reqs(vt, k as int) == Ok::<Seq<ReqView>, RegolaInvalida>(Seq::empty()));
            assert(reqs_view(rg.requisiti@) + Seq::<ReqView>::empty() =~= reqs_view(rg.requisiti@));
            assert(rg@.reqs =~~= reqs_view(rg.requisiti@));
            match parse_rule(testo@, limite_somma) {
                Ok(rv) => {
                    assert(rv =~~= rg@);
                },
                Err(_) => {
                    assert(false);
                },
            }
        }
        Ok(rg)
    }
}

/// Every requirement a parse accepts carries a threshold in the
/// grammar's range: at most eight. This is what entitles a caller to
/// render a table built through `regola`.
pub proof fn lemma_parse_reqs_bounded(toks: Seq<Seq<char>>, k: int)
    ensures
        parse_reqs(toks, k) matches Ok(reqs) ==> forall|j: int|
            0 <= j < reqs.len() ==> (#[trigger] reqs[j]).threshold <= 8,
    decreases toks.len() + 1 - k,
{
    if k < 0 || k >= toks.len() {
    } else {
        match parse_threshold(toks[k]) {
            None => {},
            Some(c) => {
                assert(c <= 8) by {
                    crate::text::lemma_digits_val_nonneg(toks[k]);
                }
                lemma_parse_reqs_bounded(toks, k + 2);
                match parse_reqs(toks, k + 2) {
                    Ok(rest) => {
                        let whole = seq![ReqView { threshold: c, color: toks[k + 1] }] + rest;
                        assert forall|j: int|
                            0 <= j < whole.len() implies (#[trigger] whole[j]).threshold <= 8 by {
                            if j > 0 {
                                assert(whole[j] == rest[j - 1]);
                            }
                        }
                    },
                    Err(_) => {},
                }
            },
        }
    }
}

/// The decimal digit for a threshold between zero and eight.
pub open spec fn digit_char(v: u8) -> char {
    if v == 0 {
        '0'
    } else if v == 1 {
        '1'
    } else if v == 2 {
        '2'
    } else if v == 3 {
        '3'
    } else if v == 4 {
        '4'
    } else if v == 5 {
        '5'
    } else if v == 6 {
        '6'
    } else if v == 7 {
        '7'
    } else {
        '8'
    }
}

/// One rendered requirement: a space, the threshold digit, a space,
/// the color.
pub open spec fn render_req(q: ReqView) -> Seq<char> {
    seq![' ', digit_char(q.threshold), ' '] + q.color
}

/// A requirement list rendered in order.
pub open spec fn render_reqs(qs: Seq<ReqView>) -> Seq<char>
    decreases qs.len(),
{
    if qs.len() == 0 {
        Seq::empty()
    } else {
        render_reqs(qs.drop_last()) + render_req(qs.last())
    }
}

/// One rendered rule: its color, a colon, its requirements, a line
/// break.
pub open spec fn render_rule(r: RuleView) -> Seq<char> {
    r.color + seq![':'] + render_reqs(r.reqs) + seq!['\n']
}

/// The rules rendered in order.
pub open spec fn render_rules(rs: Seq<RuleView>) -> Seq<char>
    decreases rs.len(),
{
    if rs.len() == 0 {
        Seq::empty()
    } else {
        render_rules(rs.drop_last()) + render_rule(rs.last())
    }
}

/// The whole listing: the rules between a `(` line and a `)` line.
pub open spec fn render_table(rs: Seq<RuleView>) -> Seq<char> {
    seq!['(', '\n'] + render_rules(rs) + seq![')']
}

/// The one-character text of a threshold digit.
fn cifra(v: u8) -> (r: &'static str)
    requires
        v <= 8,
    ensures
        r@ == seq![digit_char(v)],
{
    proof {
        reveal_strlit("0");
        reveal_strlit("1");
        reveal_strlit("2");
        reveal_strlit("3");
        reveal_strlit("4");
        reveal_strlit("5");
        reveal_strlit("6");
        reveal_strlit("7");
        reveal_strlit("8");
    }
    let r = match v {
        0 => "0",
        1 => "1",
        2 => "2",
        3 => "3",
        4 => "4",
        5 => "5",
        6 => "6",
        7 => "7",
        _ => "8",
    };
    proof {
        assert(r@ =~= seq![digit_char(v)]);
    }
    r
}

impl Piano {
    /// Renders the rule table: one line per rule between a `(` line
    /// and a closing `)`, each rule as its color, a colon, and its
    /// threshold/color pairs in parse order.
    pub fn stampa(&self) -> (r: String)
        requires
            forall|i: int, j: int|
                0 <= i < self.regole@.len() && 0 <= j < rules_view(self.regole@)[i].reqs.len()
                    ==> (#[trigger] rules_view(self.regole@)[i].reqs[j]).threshold <= 8,
        ensures
            r@ == render_table(rules_view(self.regole@)),
    {
        let ghost rv = rules_view(self.regole@);
        let mut fuori = String::from_str("(\n");
        proof {
            reveal_strlit("(\n");
            assert(fuori@ =~= seq!['(', '\n']);
            assert(rv.take(0) =~= Seq::<RuleView>::empty());
            assert(fuori@ =~= seq!['(', '\n'] + render_rules(rv.take(0)));
        }
        let n = self.regole.len();
        let mut i: usize = 0;
        while i < n
            invariant
                i <= n,
                n == self.regole@.len(),
                rv == rules_view(self.regole@),
                forall|a: int, b: int|
                    0 <= a < rv.len() && 0 <= b < rv[a].reqs.len() ==> (#[trigger] rv[a].reqs[b]).threshold
                        <= 8,
                fuori@ == seq!['(', '\n'] + render_rules(rv.take(i as int)),
            decreases n - i,
        {
            fuori.append(self.regole[i].colore.as_str());
            fuori.append(":");
            proof {
                reveal_strlit(":");
                assert(rv[i as int].reqs.take(0) =~= Seq::<ReqView>::empty());
                assert(fuori@ =~= seq!['(', '\n'] + render_rules(rv.take(i as int)) + rv[i as int].color
                    + seq![':'] + render_reqs(rv[i as int].reqs.take(0)));
            }
            let m = self.regole[i].requisiti.len();
            let mut j: usize = 0;
            while j < m
                invariant
                    j <= m,
                    i < n,
                    n == self.regole@.len(),
                    rv == rules_view(self.regole@),
                    m == rv[i as int].reqs.len(),
                    forall|a: int, b: int|
                        0 <= a < rv.len() && 0 <= b < rv[a].reqs.len() ==> (#[trigger] rv[a].reqs[b]).threshold
                            <= 8,
                    fuori@ == seq!['(', '\n'] + render_rules(rv.take(i as int)) + rv[i as int].color
                        + seq![':'] + render_reqs(rv[i as int].reqs.take(j as int)),
                decreases m - j,
            {
                proof {
                    assert(rv[i as int].reqs[j as int].threshold <= 8);
                    assert(rv[i as int].reqs[j as int] == self.regole@[i as int].requisiti@[j as int]@);
                }
                fuori.append(" ");
                fuori.append(cifra(self.regole[i].requisiti[j].coefficiente));
                fuori.append(" ");
                fuori.append(self.regole[i].requisiti[j].colore.as_str());
                proof {
                    reveal_strlit(" ");
                    let qs = rv[i as int].reqs;
                    assert(qs.take(j as int + 1).drop_last() =~= qs.take(j as int));
                    assert(qs[j as int] == self.regole@[i as int].requisiti@[j as int]@);
                    assert(render_reqs(qs.take(j as int + 1)) == render_reqs(qs.take(j as int))
                        + render_req(qs[j as int]));
                    assert(fuori@ =~= seq!['(', '\n'] + render_rules(rv.take(i as int))
                        + rv[i as int].color + seq![':'] + render_reqs(qs.take(j as int + 1)));
                }
                j = j + 1;
            }
            fuori.append("\n");
            proof {
                reveal_strlit("\n");
                assert(rv[i as int].reqs.take(m as int) =~= rv[i as int].reqs);
                assert(rv.take(i as int + 1).drop_last() =~= rv.take(i as int));
                assert(render_rules(rv.take(i as int + 1)) == render_rules(rv.take(i as int))
                    + render_rule(rv[i as int]));
                assert(fuori@ =~= seq!['(', '\n'] + render_rules(rv.take(i as int + 1)));
            }
            i = i + 1;
        }
        fuori.append(")");
        proof {
            reveal_strlit(")");
            assert(rv.take(n as int) =~= rv);
            assert(fuori@ =~= render_table(rv));
        }
        fuori
    }

    /// Parses a rule definition and appends it, with usage zero, to
    /// the rule table; a malformed definition changes nothing. The
    /// thresholds' sum is not capped here.
    pub fn regola(&mut self, regola: String) -> (r: Result<(), RegolaInvalida>)
        ensures
            final(self).piastrelle == old(self).piastrelle,
            match parse_rule(regola@, false) {
                Ok(rv) => r == Ok::<(), RegolaInvalida>(()) && rules_view(final(self).regole@)
                    == rules_view(old(self).regole@).push(rv),
                Err(e) => r == Err::<(), RegolaInvalida>(e) && final(self).regole
                    == old(self).regole,
            },
    {
        match Regola::parse(regola.as_str(), false) {
            Ok(rg) => {
                let ghost prima = self.regole@;
                self.regole.push(rg);
                proof {
                    assert(rules_view(self.regole@) =~~= rules_view(prima).push(rg@));
                }
                Ok(())
            },
            Err(e) => Err(e),
        }
    }
}

} // verus!
