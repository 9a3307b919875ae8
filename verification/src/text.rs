//! Text helpers: splitting on single spaces and reading small decimal
//! numbers, each specified against a recursive model of the text.

use vstd::prelude::*;
use vstd::string::StrSliceExecFns;

verus! {

/// Splitting a character sequence on every single space, empty pieces
/// included: the model of `str::split(' ')`.
pub open spec fn split_sp(s: Seq<char>) -> Seq<Seq<char>>
    decreases s.len(),
{
    if s.len() == 0 {
        seq![Seq::<char>::empty()]
    } else if s[0] == ' ' {
        seq![Seq::<char>::empty()] + split_sp(s.drop_first())
    } else {
        let rest = split_sp(s.drop_first());
        rest.update(0, seq![s[0]] + rest[0])
    }
}

/// `s` contains no space.
pub open spec fn no_space(s: Seq<char>) -> bool {
    forall|i: int| 0 <= i < s.len() ==> s[i] != ' '
}

/// A split always yields at least one piece.
pub proof fn lemma_split_sp_len(s: Seq<char>)
    ensures
        split_sp(s).len() >= 1,
    decreases s.len(),
{
    if s.len() == 0 {
    } else {
        lemma_split_sp_len(s.drop_first());
    }
}

/// A space-free sequence splits into itself alone.
pub proof fn lemma_split_sp_whole(s: Seq<char>)
    requires
        no_space(s),
    ensures
        split_sp(s) == seq![s],
    decreases s.len(),
{
    if s.len() == 0 {
        assert(split_sp(s) =~~= seq![s]);
    } else {
        assert(s[0] != ' ');
        assert(no_space(s.drop_first()));
        lemma_split_sp_whole(s.drop_first());
        assert(seq![s[0]] + s.drop_first() =~= s);
        assert(split_sp(s) =~~= seq![s]);
    }
}

/// Splitting at the first space: a space-free piece `a` followed by a
/// space and a remainder `b` splits into `a` and the split of `b`.
pub proof fn lemma_split_sp_step(a: Seq<char>, b: Seq<char>)
    requires
        no_space(a),
    ensures
        split_sp(a + seq![' '] + b) == seq![a] + split_sp(b),
    decreases a.len(),
{
    let s = a + seq![' '] + b;
    if a.len() == 0 {
        assert(s[0] == ' ');
        assert(s.drop_first() =~= b);
        assert(split_sp(s) =~~= seq![a] + split_sp(b));
    } else {
        assert(s[0] == a[0]);
        assert(s[0] != ' ');
        assert(s.drop_first() =~= a.drop_first() + seq![' '] + b);
        assert(no_space(a.drop_first()));
        lemma_split_sp_step(a.drop_first(), b);
        let rest = split_sp(s.drop_first());
        assert(rest == seq![a.drop_first()] + split_sp(b));
        lemma_split_sp_len(b);
        assert(rest[0] == a.drop_first());
        assert(seq![s[0]] + a.drop_first() =~= a);
        assert(split_sp(s) =~~= seq![a] + split_sp(b));
    }
}

/// Splits `s` on every single space, as `str::split(' ')` would,
/// returning the pieces as owned strings.
pub fn split_spazi(s: &str) -> (r: Vec<String>)
    ensures
        r.deep_view() == split_sp(s@),
{
    let n = s.unicode_len();
    let mut out: Vec<String> = Vec::new();
    let mut inizio: usize = 0;
    let mut i: usize = 0;
    proof {
        assert(out.deep_view() =~~= Seq::<Seq<char>>::empty());
        assert(s@.subrange(0, n as int) =~= s@);
        assert(split_sp(s@) =~~= out.deep_view() + split_sp(s@.subrange(0, n as int)));
    }
    while i < n
        invariant
            0 <= inizio <= i <= n,
            n == s@.len(),
            no_space(s@.subrange(inizio as int, i as int)),
            split_sp(s@) == out.deep_view() + split_sp(s@.subrange(inizio as int, n as int)),
        decreases n - i,
    {
        let c = s.get_char(i);
        if c == ' ' {
            let pezzo = s.substring_char(inizio, i).to_owned();
            proof {
                let coda = s@.subrange(inizio as int, n as int);
                assert(coda =~= s@.subrange(inizio as int, i as int) + seq![' '] + s@.subrange(
                    i as int + 1,
                    n as int,
                ));
                lemma_split_sp_step(
                    s@.subrange(inizio as int, i as int),
                    s@.subrange(i as int + 1, n as int),
                );
            }
            let ghost prima = out.deep_view();
            out.push(pezzo);
            proof {
                assert(out.deep_view() =~~= prima + seq![pezzo@]);
                assert(pezzo@ == s@.subrange(inizio as int, i as int));
                assert(split_sp(s@) =~~= out.deep_view() + split_sp(
                    s@.subrange(i as int + 1, n as int),
                ));
            }
            inizio = i + 1;
        } else {
            proof {
                assert(s@.subrange(inizio as int, i as int + 1) =~= s@.subrange(
                    inizio as int,
                    i as int,
                ).push(s@[i as int]));
            }
        }
        i = i + 1;
    }
    let pezzo = s.substring_char(inizio, n).to_owned();
    proof {
        lemma_split_sp_whole(s@.subrange(inizio as int, n as int));
    }
    let ghost prima = out.deep_view();
    out.push(pezzo);
    proof {
        assert(out.deep_view() =~~= prima + seq![pezzo@]);
        assert(split_sp(s@) =~~= out.deep_view());
    }
    out
}

/// Every character of `s` is a decimal digit and there is at least
/// one of them.
pub open spec fn is_digits(s: Seq<char>) -> bool {
    s.len() >= 1 && forall|i: int| 0 <= i < s.len() ==> '0' <= #[trigger] s[i] <= '9'
}

/// The numeric value of a digit sequence.
pub open spec fn digits_val(s: Seq<char>) -> int
    decreases s.len(),
{
    if s.len() == 0 {
        0
    } else {
        digits_val(s.drop_last()) * 10 + (s.last() as int - '0' as int)
    }
}

/// Digit sequences have non-negative values.
pub proof fn lemma_digits_val_nonneg(s: Seq<char>)
    requires
        forall|i: int| 0 <= i < s.len() ==> '0' <= #[trigger] s[i] <= '9',
    ensures
        digits_val(s) >= 0,
    decreases s.len(),
{
    if s.len() > 0 {
        lemma_digits_val_nonneg(s.drop_last());
        assert(digits_val(s.drop_last()) * 10 >= 0) by (nonlinear_arith)
            requires
                digits_val(s.drop_last()) >= 0,
        ;
    }
}

/// Extending a digit sequence never lowers its value.
pub proof fn lemma_digits_val_prefix(s: Seq<char>, i: int)
    requires
        0 <= i <= s.len(),
        forall|j: int| 0 <= j < s.len() ==> '0' <= #[trigger] s[j] <= '9',
    ensures
        digits_val(s.subrange(0, i)) <= digits_val(s),
    decreases s.len() - i,
{
    if i == s.len() {
        assert(s.subrange(0, i) =~= s);
    } else {
        let t = s.subrange(0, i + 1);
        assert(t.drop_last() =~= s.subrange(0, i));
        lemma_digits_val_nonneg(s.subrange(0, i));
        assert(digits_val(t) == digits_val(s.subrange(0, i)) * 10 + (t.last() as int
            - '0' as int));
        assert(digits_val(s.subrange(0, i)) * 10 >= digits_val(s.subrange(0, i))) by (
        nonlinear_arith)
            requires
                digits_val(s.subrange(0, i)) >= 0,
        ;
        assert('0' <= s[i] <= '9');
        lemma_digits_val_prefix(s, i + 1);
    }
}

/// The rule language's threshold grammar: a digit string whose value
/// is at most eight.
pub open spec fn parse_threshold(s: Seq<char>) -> Option<u8> {
    if is_digits(s) && digits_val(s) <= 8 {
        Some(digits_val(s) as u8)
    } else {
        None
    }
}

/// Reads a threshold token: all decimal digits, value at most eight.
pub fn parse_soglia(t: &str) -> (r: Option<u8>)
    ensures
        r == parse_threshold(t@),
{
    let n = t.unicode_len();
    if n == 0 {
        return None;
    }
    let mut v: u64 = 0;
    let mut i: usize = 0;
    while i < n
        invariant
            0 <= i <= n,
            n == t@.len(),
            n >= 1,
            0 <= v <= 8,
            forall|j: int| 0 <= j < i ==> '0' <= #[trigger] t@[j] <= '9',
            v as int == digits_val(t@.subrange(0, i as int)),
        decreases n - i,
    {
        let c = t.get_char(i);
        if c < '0' || c > '9' {
            return None;
        }
        let d = c as u64 - '0' as u64;
        let vn = v * 10 + d;
        proof {
            assert(t@.subrange(0, i as int + 1).drop_last() =~= t@.subrange(0, i as int));
        }
        if vn > 8 {
            proof {
                if is_digits(t@) {
                    lemma_digits_val_prefix(t@, i as int + 1);
                }
            }
            return None;
        }
        v = vn;
        i = i + 1;
    }
    proof {
        assert(t@.subrange(0, n as int) =~= t@);
    }
    Some(v as u8)
}

} // verus!
