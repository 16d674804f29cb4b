//! The canonical JSON form in which score lists and test catalogs are
//! stored: no whitespace, object keys in a fixed order, strings escaping
//! only the quote and the backslash, integers in plain decimal.
//!
//! Serializers and parsers are verified against one specification; a parser
//! applied to a serializer's output returns exactly the value that went in,
//! and anything outside the canonical form parses to None.

use vstd::prelude::*;

use crate::compare::{EvalRunScores, SingleEvalScore};
use crate::register::{catalog_rep, tests_rep, Test, TestCatalogEntry};

verus! {

/// Magnitude cap while parsing an integer: one above i64::MAX, the absolute
/// value of i64::MIN.
pub const INT_MAG_CAP: u64 = 0x8000_0000_0000_0000;

/// How one byte of a string is written: quote and backslash get a backslash.
pub open spec fn esc1(x: u8) -> Seq<u8> {
    if x == 34 || x == 92 {
        seq![92u8, x]
    } else {
        seq![x]
    }
}

/// The escaped body of a string.
pub open spec fn esc_bytes(s: Seq<u8>) -> Seq<u8>
    decreases s.len(),
{
    if s.len() == 0 {
        Seq::empty()
    } else {
        esc1(s[0]) + esc_bytes(s.drop_first())
    }
}

/// A string: quote, escaped body, quote.
pub open spec fn ser_string(s: Seq<u8>) -> Seq<u8> {
    seq![34u8] + esc_bytes(s) + seq![34u8]
}

/// A natural number in decimal.
pub open spec fn ser_nat(n: nat) -> Seq<u8>
    decreases n,
{
    if n < 10 {
        seq![(48 + n) as u8]
    } else {
        ser_nat(n / 10) + seq![(48 + n % 10) as u8]
    }
}

/// An integer in decimal, with a leading minus sign when negative.
pub open spec fn ser_int(v: int) -> Seq<u8> {
    if v < 0 {
        seq![45u8] + ser_nat((-v) as nat)
    } else {
        ser_nat(v as nat)
    }
}

pub proof fn lemma_esc_push(s: Seq<u8>, x: u8)
    ensures
        esc_bytes(s.push(x)) == esc_bytes(s) + esc1(x),
    decreases s.len(),
{
    if s.len() == 0 {
        assert(s.push(x).drop_first() =~= Seq::<u8>::empty());
        assert(esc_bytes(Seq::<u8>::empty()) =~= Seq::<u8>::empty());
        assert(s.push(x)[0] == x);
        assert(esc_bytes(s.push(x)) =~= esc1(x) + Seq::<u8>::empty());
        assert(esc1(x) + Seq::<u8>::empty() =~= esc1(x));
        assert(esc_bytes(s) + esc1(x) =~= esc1(x));
    } else {
        assert(s.push(x).drop_first() =~= s.drop_first().push(x));
        lemma_esc_push(s.drop_first(), x);
        assert(esc1(s[0]) + (esc_bytes(s.drop_first()) + esc1(x)) =~= (esc1(s[0]) + esc_bytes(
            s.drop_first(),
        )) + esc1(x));
    }
}

/// Append a string in canonical form.
pub fn write_string(out: &mut Vec<u8>, s: &Vec<u8>)
    ensures
        final(out)@ == old(out)@ + ser_string(s@),
{
    out.push(34);
    let n = s.len();
    let mut i: usize = 0;
    while i < n
        invariant
            i <= n,
            n == s@.len(),
            out@ == old(out)@ + seq![34u8] + esc_bytes(s@.take(i as int)),
        decreases n - i,
    {
        proof {
            assert(s@.take(i as int).push(s@[i as int]) =~= s@.take(i as int + 1));
            lemma_esc_push(s@.take(i as int), s@[i as int]);
        }
        let c = s[i];
        if c == 34 || c == 92 {
            out.push(92);
            out.push(c);
            proof {
                assert(out@ =~= old(out)@ + seq![34u8] + esc_bytes(s@.take(i as int + 1)));
            }
        } else {
            out.push(c);
            proof {
                assert(out@ =~= old(out)@ + seq![34u8] + esc_bytes(s@.take(i as int + 1)));
            }
        }
        i += 1;
    }
    out.push(34);
    proof {
        assert(s@.take(n as int) =~= s@);
        assert(out@ =~= old(out)@ + ser_string(s@));
    }
}

/// Append a natural number in decimal.
pub fn write_u64(out: &mut Vec<u8>, n: u64)
    ensures
        final(out)@ == old(out)@ + ser_nat(n as nat),
    decreases n,
{
    if n < 10 {
        out.push(48 + n as u8);
        proof {
            assert(out@ =~= old(out)@ + ser_nat(n as nat));
        }
    } else {
        write_u64(out, n / 10);
        out.push(48 + (n % 10) as u8);
        proof {
            assert(out@ =~= old(out)@ + ser_nat(n as nat));
        }
    }
}

/// Append an integer in decimal.
pub fn write_i64(out: &mut Vec<u8>, v: i64)
    ensures
        final(out)@ == old(out)@ + ser_int(v as int),
{
    if v < 0 {
        out.push(45);
        let m: u64 = (-(v as i128)) as u64;
        write_u64(out, m);
        proof {
            assert(out@ =~= old(out)@ + ser_int(v as int));
        }
    } else {
        write_u64(out, v as u64);
    }
}

/// Parse a string body from just after the opening quote, accumulating the
/// unescaped bytes, up to the closing quote.
pub open spec fn p_str_from(s: Seq<u8>, i: int, acc: Seq<u8>) -> Option<(Seq<u8>, int)>
    decreases s.len() - i,
{
    if i < 0 || i >= s.len() {
        None
    } else if s[i] == 34 {
        Some((acc, i + 1))
    } else if s[i] == 92 {
        if i + 1 < s.len() {
            p_str_from(s, i + 2, acc.push(s[i + 1]))
        } else {
            None
        }
    } else {
        p_str_from(s, i + 1, acc.push(s[i]))
    }
}

/// Parse a string at position i: an opening quote, a body, a closing quote.
pub open spec fn p_string(s: Seq<u8>, i: int) -> Option<(Seq<u8>, int)> {
    if 0 <= i < s.len() && s[i] == 34 {
        p_str_from(s, i + 1, Seq::empty())
    } else {
        None
    }
}

/// Parse a string at position i.
pub fn parse_string(s: &Vec<u8>, i: usize) -> (r: Option<(Vec<u8>, usize)>)
    ensures
        match r {
            Some(p) => p_string(s@, i as int) == Some((p.0@, p.1 as int)) && i < p.1 <= s@.len(),
            None => p_string(s@, i as int) == None::<(Seq<u8>, int)>,
        },
{
    let n = s.len();
    if !(i < n && s[i] == 34) {
        return None;
    }
    let mut j = i + 1;
    let mut acc: Vec<u8> = Vec::new();
    while j < n
        invariant
            i + 1 <= j <= n,
            n == s@.len(),
            i < n && s@[i as int] == 34,
            p_str_from(s@, i as int + 1, Seq::empty()) == p_str_from(s@, j as int, acc@),
        decreases n - j,
    {
        let c = s[j];
        if c == 34 {
            return Some((acc, j + 1));
        }
        if c == 92 {
            if j + 1 < n {
                acc.push(s[j + 1]);
                j += 2;
            } else {
                return None;
            }
        } else {
            acc.push(c);
            j += 1;
        }
    }
    None
}

/// Whether a byte is a decimal digit.
pub open spec fn is_digit(x: u8) -> bool {
    48 <= x <= 57
}

/// Parse a run of digits starting at a digit, accumulating the value, with
/// the magnitude capped one above i64::MAX.
pub open spec fn p_uint_from(s: Seq<u8>, i: int, acc: int) -> Option<(int, int)>
    decreases s.len() - i,
{
    if 0 <= i < s.len() && is_digit(s[i]) {
        let acc2 = acc * 10 + (s[i] - 48);
        if acc2 > INT_MAG_CAP {
            None
        } else if i + 1 < s.len() && is_digit(s[i + 1]) {
            p_uint_from(s, i + 1, acc2)
        } else {
            Some((acc2, i + 1))
        }
    } else {
        None
    }
}

/// Parse an integer at position i: an optional minus sign and a digit run,
/// within the range of 64-bit signed values.
pub open spec fn p_int(s: Seq<u8>, i: int) -> Option<(int, int)> {
    if 0 <= i < s.len() && s[i] == 45 {
        match p_uint_from(s, i + 1, 0) {
            Some(r) => Some((-r.0, r.1)),
            None => None,
        }
    } else {
        match p_uint_from(s, i, 0) {
            Some(r) => if r.0 <= i64::MAX {
                Some(r)
            } else {
                None
            },
            None => None,
        }
    }
}

/// Parse a digit run at position i.
fn parse_uint(s: &Vec<u8>, i: usize) -> (r: Option<(u64, usize)>)
    ensures
        match r {
            Some(p) => p_uint_from(s@, i as int, 0) == Some((p.0 as int, p.1 as int)) && i < p.1
                <= s@.len() && p.0 <= INT_MAG_CAP,
            None => p_uint_from(s@, i as int, 0) == None::<(int, int)>,
        },
{
    let n = s.len();
    if !(i < n && 48 <= s[i] && s[i] <= 57) {
        return None;
    }
    let mut j = i;
    let mut acc: u64 = 0;
    let mut fin: bool = false;
    while !fin
        invariant
            i <= j < n,
            n == s@.len(),
            acc <= INT_MAG_CAP,
            !fin ==> is_digit(s@[j as int]),
            !fin ==> p_uint_from(s@, i as int, 0) == p_uint_from(s@, j as int, acc as int),
            fin ==> p_uint_from(s@, i as int, 0) == Some((acc as int, j as int + 1)),
        decreases n - j, if fin { 0int } else { 1int },
    {
        let d = s[j] - 48;
        let wide: u128 = acc as u128 * 10 + d as u128;
        if wide > INT_MAG_CAP as u128 {
            return None;
        }
        acc = wide as u64;
        if j + 1 < n && 48 <= s[j + 1] && s[j + 1] <= 57 {
            j += 1;
        } else {
            fin = true;
        }
    }
    Some((acc, j + 1))
}

/// Parse an integer at position i, within the 64-bit signed range.
pub fn parse_i64(s: &Vec<u8>, i: usize) -> (r: Option<(i64, usize)>)
    ensures
        match r {
            Some(p) => p_int(s@, i as int) == Some((p.0 as int, p.1 as int)) && i < p.1 <= s@.len(),
            None => p_int(s@, i as int) == None::<(int, int)>,
        },
{
    let n = s.len();
    if i < n && s[i] == 45 {
        match parse_uint(s, i + 1) {
            Some((m, j)) => Some(((-(m as i128)) as i64, j)),
            None => None,
        }
    } else {
        match parse_uint(s, i) {
            Some((m, j)) => {
                if m <= 0x7FFF_FFFF_FFFF_FFFF {
                    Some((m as i64, j))
                } else {
                    None
                }
            },
            None => None,
        }
    }
}

/// Whether a pattern occurs in s at position i.
pub fn match_at(s: &Vec<u8>, i: usize, pat: &Vec<u8>) -> (r: bool)
    ensures
        r == (i + pat@.len() <= s@.len() && s@.subrange(i as int, i as int + pat@.len() as int)
            == pat@),
{
    let n = s.len();
    let m = pat.len();
    if n < m || i > n - m {
        return false;
    }
    let mut k: usize = 0;
    while k < m
        invariant
            k <= m,
            m == pat@.len(),
            n == s@.len(),
            i + m <= n,
            forall|t: int| 0 <= t < k ==> s@[i + t] == pat@[t],
        decreases m - k,
    {
        if s[i + k] != pat[k] {
            proof {
                assert(s@.subrange(i as int, i as int + m as int)[k as int] != pat@[k as int]);
            }
            return false;
        }
        k += 1;
    }
    proof {
        assert(s@.subrange(i as int, i as int + m as int) =~= pat@);
    }
    true
}

/// The bytes opening a score entry, up to its hash value.
pub open spec fn lit_score_head() -> Seq<u8> {
    seq![123u8, 34u8, 101u8, 118u8, 97u8, 108u8, 95u8, 104u8, 97u8, 115u8, 104u8, 34u8, 58u8]
}

/// The bytes between a score entry's hash and its score value.
pub open spec fn lit_score_mid() -> Seq<u8> {
    seq![44u8, 34u8, 115u8, 99u8, 111u8, 114u8, 101u8, 34u8, 58u8]
}

/// The opening bytes of a score entry, as a vector.
pub fn lit_score_head_vec() -> (r: Vec<u8>)
    ensures
        r@ == lit_score_head(),
{
    let mut v: Vec<u8> = Vec::new();
    v.push(123u8);
    v.push(34u8);
    v.push(101u8);
    v.push(118u8);
    v.push(97u8);
    v.push(108u8);
    v.push(95u8);
    v.push(104u8);
    v.push(97u8);
    v.push(115u8);
    v.push(104u8);
    v.push(34u8);
    v.push(58u8);
    proof {
        assert(v@ =~= lit_score_head());
    }
    v
}

/// The middle bytes of a score entry, as a vector.
pub fn lit_score_mid_vec() -> (r: Vec<u8>)
    ensures
        r@ == lit_score_mid(),
{
    let mut v: Vec<u8> = Vec::new();
    v.push(44u8);
    v.push(34u8);
    v.push(115u8);
    v.push(99u8);
    v.push(111u8);
    v.push(114u8);
    v.push(101u8);
    v.push(34u8);
    v.push(58u8);
    proof {
        assert(v@ =~= lit_score_mid());
    }
    v
}

/// The ghost form of a score list: hash bytes and score value per entry.
pub open spec fn scores_rep(s: Seq<SingleEvalScore>) -> Seq<(Seq<u8>, int)> {
    Seq::new(s.len(), |i: int| (s[i].eval_hash@, s[i].score as int))
}

/// One score entry in canonical form.
pub open spec fn ser_score_entry(e: (Seq<u8>, int)) -> Seq<u8> {
    lit_score_head() + ser_string(e.0) + lit_score_mid() + ser_int(e.1) + seq![125u8]
}

/// The first k score entries joined with commas.
pub open spec fn ser_scores_items(s: Seq<(Seq<u8>, int)>, k: int) -> Seq<u8>
    decreases k,
{
    if k <= 0 {
        Seq::empty()
    } else if k == 1 {
        ser_score_entry(s[0])
    } else {
        ser_scores_items(s, k - 1) + seq![44u8] + ser_score_entry(s[k - 1])
    }
}

/// A score list in canonical form.
pub open spec fn ser_scores(s: Seq<(Seq<u8>, int)>) -> Seq<u8> {
    seq![91u8] + ser_scores_items(s, s.len() as int) + seq![93u8]
}

/// Serialize a run's scores to the canonical stored form.
pub fn serialize_scores(scores: &EvalRunScores) -> (out: Vec<u8>)
    ensures
        out@ == ser_scores(scores_rep(scores@)),
{
    let ghost rep = scores_rep(scores@);
    let mut out: Vec<u8> = Vec::new();
    out.push(91u8);
    let n = scores.len();
    let mut i: usize = 0;
    while i < n
        invariant
            i <= n,
            n == scores@.len(),
            rep == scores_rep(scores@),
            out@ == seq![91u8] + ser_scores_items(rep, i as int),
        decreases n - i,
    {
        if i > 0 {
            out.push(44u8);
        }
        let ghost mark = out@;
        let mut head = lit_score_head_vec();
        out.append(&mut head);
        write_string(&mut out, &scores[i].eval_hash);
        let mut mid = lit_score_mid_vec();
        out.append(&mut mid);
        write_i64(&mut out, scores[i].score);
        out.push(125u8);
        proof {
            assert(out@ =~= mark + ser_score_entry(rep[i as int]));
            if i == 0 {
                assert(out@ =~= seq![91u8] + ser_scores_items(rep, i as int + 1));
            } else {
                assert(out@ =~= seq![91u8] + ser_scores_items(rep, i as int + 1));
            }
        }
        i += 1;
    }
    out.push(93u8);
    proof {
        assert(out@ =~= ser_scores(rep));
    }
    out
}

/// Parse one score entry at position i.
pub open spec fn p_score_entry(s: Seq<u8>, i: int) -> Option<((Seq<u8>, int), int)> {
    if i + 13 <= s.len() && s.subrange(i, i + 13) == lit_score_head() {
        match p_string(s, i + 13) {
            Some(h) => {
                if h.1 + 9 <= s.len() && s.subrange(h.1, h.1 + 9) == lit_score_mid() {
                    match p_int(s, h.1 + 9) {
                        Some(v) => if v.1 < s.len() && s[v.1] == 125u8 {
                            Some(((h.0, v.0), v.1 + 1))
                        } else {
                            None
                        },
                        None => None,
                    }
                } else {
                    None
                }
            },
            None => None,
        }
    } else {
        None
    }
}

/// Parse score entries from position i to the closing bracket.
pub open spec fn p_scores_rest(s: Seq<u8>, i: int, acc: Seq<(Seq<u8>, int)>) -> Option<
    (Seq<(Seq<u8>, int)>, int),
>
    decreases s.len() - i,
{
    match p_score_entry(s, i) {
        Some(e) => {
            if i < e.1 <= s.len() {
                if e.1 < s.len() && s[e.1] == 44u8 {
                    p_scores_rest(s, e.1 + 1, acc.push(e.0))
                } else if e.1 < s.len() && s[e.1] == 93u8 {
                    Some((acc.push(e.0), e.1 + 1))
                } else {
                    None
                }
            } else {
                None
            }
        },
        None => None,
    }
}

/// Parse a whole score list: the entire input must be one canonical list.
pub open spec fn p_scores(s: Seq<u8>) -> Option<Seq<(Seq<u8>, int)>> {
    if s.len() >= 2 && s[0] == 91u8 {
        if s.len() == 2 && s[1] == 93u8 {
            Some(Seq::empty())
        } else {
            match p_scores_rest(s, 1, Seq::empty()) {
                Some(r) => if r.1 == s.len() {
                    Some(r.0)
                } else {
                    None
                },
                None => None,
            }
        }
    } else {
        None
    }
}

/// Parse one score entry at position i.
fn parse_score_entry(s: &Vec<u8>, i: usize) -> (r: Option<(SingleEvalScore, usize)>)
    ensures
        match r {
            Some(p) => p_score_entry(s@, i as int) == Some(
                ((p.0.eval_hash@, p.0.score as int), p.1 as int),
            ) && i < p.1 <= s@.len(),
            None => p_score_entry(s@, i as int) == None::<((Seq<u8>, int), int)>,
        },
{
    let n = s.len();
    let head = lit_score_head_vec();
    if !match_at(s, i, &head) {
        return None;
    }
    proof {
        assert(head@.len() == 13);
        assert(i + 13 <= n);
    }
    match parse_string(s, i + 13) {
        Some((h, j)) => {
            let mid = lit_score_mid_vec();
            if !match_at(s, j, &mid) {
                return None;
            }
            proof {
                assert(mid@.len() == 9);
                assert(j + 9 <= n);
            }
            match parse_i64(s, j + 9) {
                Some((v, k)) => {
                    if k < s.len() && s[k] == 125u8 {
                        Some((SingleEvalScore { eval_hash: h, score: v }, k + 1))
                    } else {
                        None
                    }
                },
                None => None,
            }
        },
        None => None,
    }
}

/// Parse the canonical stored form of a run's scores.
pub fn parse_scores(s: &Vec<u8>) -> (r: Option<EvalRunScores>)
    ensures
        match r {
            Some(v) => p_scores(s@) == Some(scores_rep(v@)),
            None => p_scores(s@) == None::<Seq<(Seq<u8>, int)>>,
        },
{
    let n = s.len();
    if !(n >= 2 && s[0] == 91u8) {
        return None;
    }
    if n == 2 && s[1] == 93u8 {
        let empty: EvalRunScores = Vec::new();
        proof {
            assert(scores_rep(empty@) =~= Seq::<(Seq<u8>, int)>::empty());
        }
        return Some(empty);
    }
    let mut acc: EvalRunScores = Vec::new();
    let mut j: usize = 1;
    let mut fin: Option<usize> = None;
    proof {
        assert(scores_rep(acc@) =~= Seq::<(Seq<u8>, int)>::empty());
    }
    while fin.is_none()
        invariant
            1 <= j <= n,
            n == s@.len(),
            n >= 2,
            s@[0] == 91u8,
            !(n == 2 && s@[1] == 93u8),
            match fin {
                Some(end) => p_scores_rest(s@, 1, Seq::empty()) == Some(
                    (scores_rep(acc@), end as int),
                ),
                None => p_scores_rest(s@, 1, Seq::empty()) == p_scores_rest(
                    s@,
                    j as int,
                    scores_rep(acc@),
                ),
            },
        decreases n - j, if fin.is_none() { 1int } else { 0int },
    {
        match parse_score_entry(s, j) {
            Some((entry, j2)) => {
                let ghost oldacc = scores_rep(acc@);
                acc.push(entry);
                proof {
                    assert(scores_rep(acc@) =~= oldacc.push((entry.eval_hash@, entry.score as int)));
                }
                if j2 < n && s[j2] == 44u8 {
                    j = j2 + 1;
                } else if j2 < n && s[j2] == 93u8 {
                    fin = Some(j2 + 1);
                } else {
                    return None;
                }
            },
            None => {
                return None;
            },
        }
    }
    match fin {
        Some(end) => {
            if end == n {
                Some(acc)
            } else {
                None
            }
        },
        None => None,
    }
}

/// The bytes opening a test descriptor, up to its version value.
pub open spec fn lit_test_head() -> Seq<u8> {
    seq![123u8, 34u8, 118u8, 101u8, 114u8, 115u8, 105u8, 111u8, 110u8, 34u8, 58u8]
}

/// The bytes between a descriptor's version and its export name.
pub open spec fn lit_test_mid1() -> Seq<u8> {
    seq![
        44u8,
        34u8,
        101u8,
        120u8,
        112u8,
        111u8,
        114u8,
        116u8,
        95u8,
        110u8,
        97u8,
        109u8,
        101u8,
        34u8,
        58u8,
    ]
}

/// The bytes between a descriptor's export name and its file path.
pub open spec fn lit_test_mid2() -> Seq<u8> {
    seq![44u8, 34u8, 102u8, 105u8, 108u8, 101u8, 95u8, 112u8, 97u8, 116u8, 104u8, 34u8, 58u8]
}

/// The opening bytes of a test descriptor, as a vector.
pub fn lit_test_head_vec() -> (r: Vec<u8>)
    ensures
        r@ == lit_test_head(),
{
    let mut v: Vec<u8> = Vec::new();
    v.push(123);
    v.push(34);
    v.push(118);
    v.push(101);
    v.push(114);
    v.push(115);
    v.push(105);
    v.push(111);
    v.push(110);
    v.push(34);
    v.push(58);
    proof {
        assert(v@ =~= lit_test_head());
    }
    v
}

/// The first middle bytes of a test descriptor, as a vector.
pub fn lit_test_mid1_vec() -> (r: Vec<u8>)
    ensures
        r@ == lit_test_mid1(),
{
    let mut v: Vec<u8> = Vec::new();
    v.push(44);
    v.push(34);
    v.push(101);
    v.push(120);
    v.push(112);
    v.push(111);
    v.push(114);
    v.push(116);
    v.push(95);
    v.push(110);
    v.push(97);
    v.push(109);
    v.push(101);
    v.push(34);
    v.push(58);
    proof {
        assert(v@ =~= lit_test_mid1());
    }
    v
}

/// The second middle bytes of a test descriptor, as a vector.
pub fn lit_test_mid2_vec() -> (r: Vec<u8>)
    ensures
        r@ == lit_test_mid2(),
{
    let mut v: Vec<u8> = Vec::new();
    v.push(44);
    v.push(34);
    v.push(102);
    v.push(105);
    v.push(108);
    v.push(101);
    v.push(95);
    v.push(112);
    v.push(97);
    v.push(116);
    v.push(104);
    v.push(34);
    v.push(58);
    proof {
        assert(v@ =~= lit_test_mid2());
    }
    v
}

/// One test descriptor in canonical form.
pub open spec fn ser_test_entry(t: (Seq<u8>, Seq<u8>, Seq<u8>)) -> Seq<u8> {
    lit_test_head() + ser_string(t.0) + lit_test_mid1() + ser_string(t.1) + lit_test_mid2()
        + ser_string(t.2) + seq![125u8]
}

/// The first k test descriptors joined with commas.
pub open spec fn ser_tests_items(s: Seq<(Seq<u8>, Seq<u8>, Seq<u8>)>, k: int) -> Seq<u8>
    decreases k,
{
    if k <= 0 {
        Seq::empty()
    } else if k == 1 {
        ser_test_entry(s[0])
    } else {
        ser_tests_items(s, k - 1) + seq![44u8] + ser_test_entry(s[k - 1])
    }
}

/// A descriptor list in canonical form.
pub open spec fn ser_tests(s: Seq<(Seq<u8>, Seq<u8>, Seq<u8>)>) -> Seq<u8> {
    seq![91u8] + ser_tests_items(s, s.len() as int) + seq![93u8]
}

/// One catalog entry in canonical form: key, colon, descriptor list.
pub open spec fn ser_catalog_entry(e: (Seq<u8>, Seq<(Seq<u8>, Seq<u8>, Seq<u8>)>)) -> Seq<u8> {
    ser_string(e.0) + seq![58u8] + ser_tests(e.1)
}

/// The first k catalog entries joined with commas.
pub open spec fn ser_catalog_items(
    c: Seq<(Seq<u8>, Seq<(Seq<u8>, Seq<u8>, Seq<u8>)>)>,
    k: int,
) -> Seq<u8>
    decreases k,
{
    if k <= 0 {
        Seq::empty()
    } else if k == 1 {
        ser_catalog_entry(c[0])
    } else {
        ser_catalog_items(c, k - 1) + seq![44u8] + ser_catalog_entry(c[k - 1])
    }
}

/// A catalog in canonical form.
pub open spec fn ser_catalog(c: Seq<(Seq<u8>, Seq<(Seq<u8>, Seq<u8>, Seq<u8>)>)>) -> Seq<u8> {
    seq![123u8] + ser_catalog_items(c, c.len() as int) + seq![125u8]
}

/// Append one descriptor list in canonical form.
fn write_tests(out: &mut Vec<u8>, tests: &Vec<Test>)
    ensures
        final(out)@ == old(out)@ + ser_tests(tests_rep(tests@)),
{
    let ghost rep = tests_rep(tests@);
    out.push(91);
    let n = tests.len();
    let mut i: usize = 0;
    while i < n
        invariant
            i <= n,
            n == tests@.len(),
            rep == tests_rep(tests@),
            out@ == old(out)@ + seq![91u8] + ser_tests_items(rep, i as int),
        decreases n - i,
    {
        if i > 0 {
            out.push(44);
        }
        let ghost mark = out@;
        let mut head = lit_test_head_vec();
        out.append(&mut head);
        write_string(out, &tests[i].version);
        let mut mid1 = lit_test_mid1_vec();
        out.append(&mut mid1);
        write_string(out, &tests[i].export_name);
        let mut mid2 = lit_test_mid2_vec();
        out.append(&mut mid2);
        write_string(out, &tests[i].file_path);
        out.push(125);
        proof {
            assert(out@ =~= mark + ser_test_entry(rep[i as int]));
            assert(out@ =~= old(out)@ + seq![91u8] + ser_tests_items(rep, i as int + 1));
        }
        i += 1;
    }
    out.push(93);
    proof {
        assert(out@ =~= old(out)@ + ser_tests(rep));
    }
}

/// Serialize a catalog to the canonical stored form.
pub fn serialize_catalog(entries: &Vec<TestCatalogEntry>) -> (out: Vec<u8>)
    ensures
        out@ == ser_catalog(catalog_rep(entries@)),
{
    let ghost rep = catalog_rep(entries@);
    let mut out: Vec<u8> = Vec::new();
    out.push(123);
    let n = entries.len();
    let mut i: usize = 0;
    while i < n
        invariant
            i <= n,
            n == entries@.len(),
            rep == catalog_rep(entries@),
            out@ == seq![123u8] + ser_catalog_items(rep, i as int),
        decreases n - i,
    {
        if i > 0 {
            out.push(44);
        }
        let ghost mark = out@;
        write_string(&mut out, &entries[i].test_id);
        out.push(58);
        write_tests(&mut out, &entries[i].tests);
        proof {
            assert(out@ =~= mark + ser_catalog_entry(rep[i as int]));
            assert(out@ =~= seq![123u8] + ser_catalog_items(rep, i as int + 1));
        }
        i += 1;
    }
    out.push(125);
    proof {
        assert(out@ =~= ser_catalog(rep));
    }
    out
}

/// Parse one test descriptor at position i.
pub open spec fn p_test_entry(s: Seq<u8>, i: int) -> Option<((Seq<u8>, Seq<u8>, Seq<u8>), int)> {
    if i + 11 <= s.len() && s.subrange(i, i + 11) == lit_test_head() {
        match p_string(s, i + 11) {
            Some(a) => {
                if a.1 + 15 <= s.len() && s.subrange(a.1, a.1 + 15) == lit_test_mid1() {
                    match p_string(s, a.1 + 15) {
                        Some(b) => {
                            if b.1 + 13 <= s.len() && s.subrange(b.1, b.1 + 13) == lit_test_mid2() {
                                match p_string(s, b.1 + 13) {
                                    Some(c) => if c.1 < s.len() && s[c.1] == 125 {
                                        Some(((a.0, b.0, c.0), c.1 + 1))
                                    } else {
                                        None
                                    },
                                    None => None,
                                }
                            } else {
                                None
                            }
                        },
                        None => None,
                    }
                } else {
                    None
                }
            },
            None => None,
        }
    } else {
        None
    }
}

/// Parse test descriptors from position i to the closing bracket.
pub open spec fn p_tests_rest(
    s: Seq<u8>,
    i: int,
    acc: Seq<(Seq<u8>, Seq<u8>, Seq<u8>)>,
) -> Option<(Seq<(Seq<u8>, Seq<u8>, Seq<u8>)>, int)>
    decreases s.len() - i,
{
    match p_test_entry(s, i) {
        Some(e) => {
            if i < e.1 <= s.len() {
                if e.1 < s.len() && s[e.1] == 44 {
                    p_tests_rest(s, e.1 + 1, acc.push(e.0))
                } else if e.1 < s.len() && s[e.1] == 93 {
                    Some((acc.push(e.0), e.1 + 1))
                } else {
                    None
                }
            } else {
                None
            }
        },
        None => None,
    }
}

/// Parse a descriptor list at position i.
pub open spec fn p_tests(s: Seq<u8>, i: int) -> Option<(Seq<(Seq<u8>, Seq<u8>, Seq<u8>)>, int)> {
    if 0 <= i < s.len() && s[i] == 91 {
        if i + 1 < s.len() && s[i + 1] == 93 {
            Some((Seq::empty(), i + 2))
        } else {
            p_tests_rest(s, i + 1, Seq::empty())
        }
    } else {
        None
    }
}

/// Parse catalog entries from position i to the closing brace.
pub open spec fn p_catalog_rest(
    s: Seq<u8>,
    i: int,
    acc: Seq<(Seq<u8>, Seq<(Seq<u8>, Seq<u8>, Seq<u8>)>)>,
) -> Option<(Seq<(Seq<u8>, Seq<(Seq<u8>, Seq<u8>, Seq<u8>)>)>, int)>
    decreases s.len() - i,
{
    match p_string(s, i) {
        Some(k) => {
            if i < k.1 && k.1 < s.len() && s[k.1] == 58 {
                match p_tests(s, k.1 + 1) {
                    Some(t) => {
                        if k.1 < t.1 <= s.len() {
                            if t.1 < s.len() && s[t.1] == 44 {
                                p_catalog_rest(s, t.1 + 1, acc.push((k.0, t.0)))
                            } else if t.1 < s.len() && s[t.1] == 125 {
                                Some((acc.push((k.0, t.0)), t.1 + 1))
                            } else {
                                None
                            }
                        } else {
                            None
                        }
                    },
                    None => None,
                }
            } else {
                None
            }
        },
        None => None,
    }
}

/// Parse a whole catalog: the entire input must be one canonical catalog.
pub open spec fn p_catalog(s: Seq<u8>) -> Option<Seq<(Seq<u8>, Seq<(Seq<u8>, Seq<u8>, Seq<u8>)>)>> {
    if s.len() >= 2 && s[0] == 123 {
        if s.len() == 2 && s[1] == 125 {
            Some(Seq::empty())
        } else {
            match p_catalog_rest(s, 1, Seq::empty()) {
                Some(r) => if r.1 == s.len() {
                    Some(r.0)
                } else {
                    None
                },
                None => None,
            }
        }
    } else {
        None
    }
}

/// Parse one test descriptor at position i.
fn parse_test_entry(s: &Vec<u8>, i: usize) -> (r: Option<(Test, usize)>)
    ensures
        match r {
            Some(p) => p_test_entry(s@, i as int) == Some(
                ((p.0.version@, p.0.export_name@, p.0.file_path@), p.1 as int),
            ) && i < p.1 <= s@.len(),
            None => p_test_entry(s@, i as int) == None::<((Seq<u8>, Seq<u8>, Seq<u8>), int)>,
        },
{
    let n = s.len();
    let head = lit_test_head_vec();
    if !match_at(s, i, &head) {
        return None;
    }
    proof {
        assert(head@.len() == 11);
        assert(i + 11 <= n);
    }
    match parse_string(s, i + 11) {
        Some((a, j)) => {
            let mid1 = lit_test_mid1_vec();
            if !match_at(s, j, &mid1) {
                return None;
            }
            proof {
                assert(mid1@.len() == 15);
                assert(j + 15 <= n);
            }
            match parse_string(s, j + 15) {
                Some((b, j2)) => {
                    let mid2 = lit_test_mid2_vec();
                    if !match_at(s, j2, &mid2) {
                        return None;
                    }
                    proof {
                        assert(mid2@.len() == 13);
                        assert(j2 + 13 <= n);
                    }
                    match parse_string(s, j2 + 13) {
                        Some((c, j3)) => {
                            if j3 < n && s[j3] == 125 {
                                Some(
                                    (
                                        Test { version: a, export_name: b, file_path: c },
                                        j3 + 1,
                                    ),
                                )
                            } else {
                                None
                            }
                        },
                        None => None,
                    }
                },
                None => None,
            }
        },
        None => None,
    }
}

/// Parse a descriptor list at position i.
fn parse_tests(s: &Vec<u8>, i: usize) -> (r: Option<(Vec<Test>, usize)>)
    ensures
        match r {
            Some(p) => p_tests(s@, i as int) == Some((tests_rep(p.0@), p.1 as int)) && i < p.1
                <= s@.len(),
            None => p_tests(s@, i as int) == None::<(Seq<(Seq<u8>, Seq<u8>, Seq<u8>)>, int)>,
        },
{
    let n = s.len();
    if !(i < n && s[i] == 91) {
        return None;
    }
    if i + 1 < n && s[i + 1] == 93 {
        let empty: Vec<Test> = Vec::new();
        proof {
            assert(tests_rep(empty@) =~= Seq::<(Seq<u8>, Seq<u8>, Seq<u8>)>::empty());
        }
        return Some((empty, i + 2));
    }
    let mut acc: Vec<Test> = Vec::new();
    let mut j: usize = i + 1;
    let mut fin: Option<usize> = None;
    proof {
        assert(tests_rep(acc@) =~= Seq::<(Seq<u8>, Seq<u8>, Seq<u8>)>::empty());
    }
    while fin.is_none()
        invariant
            i + 1 <= j <= n,
            n == s@.len(),
            i < n && s@[i as int] == 91,
            !(i + 1 < n && s@[i as int + 1] == 93),
            match fin {
                Some(end) => p_tests_rest(s@, i as int + 1, Seq::empty()) == Some(
                    (tests_rep(acc@), end as int),
                ) && i < end <= n,
                None => p_tests_rest(s@, i as int + 1, Seq::empty()) == p_tests_rest(
                    s@,
                    j as int,
                    tests_rep(acc@),
                ),
            },
        decreases n - j, if fin.is_none() { 1int } else { 0int },
    {
        match parse_test_entry(s, j) {
            Some((entry, j2)) => {
                let ghost oldacc = tests_rep(acc@);
                let ghost erep = (entry.version@, entry.export_name@, entry.file_path@);
                acc.push(entry);
                proof {
                    assert(tests_rep(acc@) =~= oldacc.push(erep));
                }
                if j2 < n && s[j2] == 44 {
                    j = j2 + 1;
                } else if j2 < n && s[j2] == 93 {
                    fin = Some(j2 + 1);
                } else {
                    return None;
                }
            },
            None => {
                return None;
            },
        }
    }
    match fin {
        Some(end) => Some((acc, end)),
        None => None,
    }
}

/// Parse the canonical stored form of a catalog.
pub fn parse_catalog(s: &Vec<u8>) -> (r: Option<Vec<TestCatalogEntry>>)
    ensures
        match r {
            Some(v) => p_catalog(s@) == Some(catalog_rep(v@)),
            None => p_catalog(s@) == None::<Seq<(Seq<u8>, Seq<(Seq<u8>, Seq<u8>, Seq<u8>)>)>>,
        },
{
    let n = s.len();
    if !(n >= 2 && s[0] == 123) {
        return None;
    }
    if n == 2 && s[1] == 125 {
        let empty: Vec<TestCatalogEntry> = Vec::new();
        proof {
            assert(catalog_rep(empty@) =~= Seq::<
                (Seq<u8>, Seq<(Seq<u8>, Seq<u8>, Seq<u8>)>),
            >::empty());
        }
        return Some(empty);
    }
    let mut acc: Vec<TestCatalogEntry> = Vec::new();
    let mut j: usize = 1;
    let mut fin: Option<usize> = None;
    proof {
        assert(catalog_rep(acc@) =~= Seq::<(Seq<u8>, Seq<(Seq<u8>, Seq<u8>, Seq<u8>)>)>::empty());
    }
    while fin.is_none()
        invariant
            1 <= j <= n,
            n == s@.len(),
            n >= 2,
            s@[0] == 123u8,
            !(n == 2 && s@[1] == 125u8),
            match fin {
                Some(end) => p_catalog_rest(s@, 1, Seq::empty()) == Some(
                    (catalog_rep(acc@), end as int),
                ),
                None => p_catalog_rest(s@, 1, Seq::empty()) == p_catalog_rest(
                    s@,
                    j as int,
                    catalog_rep(acc@),
                ),
            },
        decreases n - j, if fin.is_none() { 1int } else { 0int },
    {
        match parse_string(s, j) {
            Some((key, j2)) => {
                if !(j2 < n && s[j2] == 58) {
                    return None;
                }
                match parse_tests(s, j2 + 1) {
                    Some((tests, j3)) => {
                        let ghost oldacc = catalog_rep(acc@);
                        let ghost erep = (key@, tests_rep(tests@));
                        let entry = TestCatalogEntry { test_id: key, tests };
                        acc.push(entry);
                        proof {
                            assert(catalog_rep(acc@) =~= oldacc.push(erep));
                        }
                        if j3 < n && s[j3] == 44 {
                            j = j3 + 1;
                        } else if j3 < n && s[j3] == 125 {
                            fin = Some(j3 + 1);
                        } else {
                            return None;
                        }
                    },
                    None => {
                        return None;
                    },
                }
            },
            None => {
                return None;
            },
        }
    }
    match fin {
        Some(end) => {
            if end == n {
                Some(acc)
            } else {
                None
            }
        },
        None => None,
    }
}

/// Parsing a serialized string body from within a larger buffer yields the
/// original bytes and stops right after the closing quote.
proof fn lemma_rt_str_from(s: Seq<u8>, i: int, v: Seq<u8>, acc: Seq<u8>)
    requires
        0 <= i,
        i + esc_bytes(v).len() + 1 <= s.len(),
        s.subrange(i, i + esc_bytes(v).len() + 1) == esc_bytes(v) + seq![34u8],
    ensures
        p_str_from(s, i, acc) == Some((acc + v, i + esc_bytes(v).len() + 1)),
    decreases v.len(),
{
    let w = s.subrange(i, i + esc_bytes(v).len() + 1);
    assert(forall|t: int| 0 <= t < w.len() ==> s[i + t] == #[trigger] w[t]);
    if v.len() == 0 {
        assert(esc_bytes(v).len() == 0);
        assert(s[i] == w[0]);
        assert(w[0] == 34);
        assert(acc + v =~= acc);
    } else {
        let tail = v.drop_first();
        assert(esc_bytes(v) == esc1(v[0]) + esc_bytes(tail));
        let tl = esc_bytes(tail).len() as int;
        let target = esc_bytes(tail) + seq![34u8];
        if v[0] == 34 || v[0] == 92 {
            assert(esc1(v[0]).len() == 2);
            assert(s[i] == w[0] && w[0] == 92);
            assert(s[i + 1] == w[1] && w[1] == v[0]);
            let sub = s.subrange(i + 2, i + 2 + tl + 1);
            assert forall|t: int| 0 <= t < tl + 1 implies #[trigger] sub[t] == target[t] by {
                assert(sub[t] == s[i + 2 + t]);
                assert(s[i + 2 + t] == w[2 + t]);
                assert(w[2 + t] == target[t]);
            }
            assert(sub =~= target);
            lemma_rt_str_from(s, i + 2, tail, acc.push(v[0]));
            assert(acc.push(v[0]) + tail =~= acc + v);
            assert(i + 1 < s.len());
        } else {
            assert(esc1(v[0]).len() == 1);
            assert(s[i] == w[0] && w[0] == v[0]);
            let sub = s.subrange(i + 1, i + 1 + tl + 1);
            assert forall|t: int| 0 <= t < tl + 1 implies #[trigger] sub[t] == target[t] by {
                assert(sub[t] == s[i + 1 + t]);
                assert(s[i + 1 + t] == w[1 + t]);
                assert(w[1 + t] == target[t]);
            }
            assert(sub =~= target);
            lemma_rt_str_from(s, i + 1, tail, acc.push(v[0]));
            assert(acc.push(v[0]) + tail =~= acc + v);
        }
    }
}

/// Parsing a serialized string from within a larger buffer yields the
/// original bytes.
pub proof fn lemma_rt_string(s: Seq<u8>, i: int, v: Seq<u8>)
    requires
        0 <= i,
        i + ser_string(v).len() <= s.len(),
        s.subrange(i, i + ser_string(v).len() as int) == ser_string(v),
    ensures
        p_string(s, i) == Some((v, i + ser_string(v).len())),
{
    let w = s.subrange(i, i + ser_string(v).len() as int);
    assert(forall|t: int| 0 <= t < w.len() ==> s[i + t] == #[trigger] w[t]);
    assert(ser_string(v).len() == esc_bytes(v).len() + 2);
    assert(s[i] == w[0] && w[0] == 34);
    let target = esc_bytes(v) + seq![34u8];
    let el = esc_bytes(v).len() as int;
    let sub = s.subrange(i + 1, i + 1 + el + 1);
    assert forall|t: int| 0 <= t < el + 1 implies #[trigger] sub[t] == target[t] by {
        assert(sub[t] == s[i + 1 + t]);
        assert(s[i + 1 + t] == w[1 + t]);
        assert(w[1 + t] == target[t]);
    }
    assert(sub =~= target);
    lemma_rt_str_from(s, i + 1, v, Seq::empty());
    assert(Seq::empty() + v =~= v);
}

/// The value of a digit run read left to right onto an accumulator.
pub open spec fn dv_acc(ds: Seq<u8>, a: int) -> int
    decreases ds.len(),
{
    if ds.len() == 0 {
        a
    } else {
        dv_acc(ds.drop_first(), a * 10 + (ds[0] - 48))
    }
}

proof fn lemma_dv_acc_ge(ds: Seq<u8>, a: int)
    requires
        a >= 0,
        forall|k: int| 0 <= k < ds.len() ==> is_digit(#[trigger] ds[k]),
    ensures
        dv_acc(ds, a) >= a,
    decreases ds.len(),
{
    if ds.len() > 0 {
        let a2 = a * 10 + (ds[0] - 48);
        assert(a2 >= a);
        assert(forall|k: int| 0 <= k < ds.drop_first().len() ==> is_digit(
            #[trigger] ds.drop_first()[k],
        ));
        lemma_dv_acc_ge(ds.drop_first(), a2);
    }
}

proof fn lemma_dv_acc_concat(s1: Seq<u8>, s2: Seq<u8>, a: int)
    ensures
        dv_acc(s1 + s2, a) == dv_acc(s2, dv_acc(s1, a)),
    decreases s1.len(),
{
    if s1.len() == 0 {
        assert(s1 + s2 =~= s2);
    } else {
        assert((s1 + s2).drop_first() =~= s1.drop_first() + s2);
        assert((s1 + s2)[0] == s1[0]);
        lemma_dv_acc_concat(s1.drop_first(), s2, a * 10 + (s1[0] - 48));
    }
}

proof fn lemma_ser_nat_digits(n: nat)
    ensures
        ser_nat(n).len() >= 1,
        forall|k: int| 0 <= k < ser_nat(n).len() ==> is_digit(#[trigger] ser_nat(n)[k]),
    decreases n,
{
    if n >= 10 {
        lemma_ser_nat_digits(n / 10);
        assert(forall|k: int|
            0 <= k < ser_nat(n / 10).len() ==> ser_nat(n)[k] == ser_nat(n / 10)[k]);
        assert(ser_nat(n)[ser_nat(n).len() - 1] == (48 + n % 10) as u8);
    }
}

proof fn lemma_ser_nat_dv(n: nat)
    ensures
        dv_acc(ser_nat(n), 0) == n,
    decreases n,
{
    if n < 10 {
        let ds = ser_nat(n);
        assert(ds =~= seq![(48 + n) as u8]);
        assert(ds[0] == (48 + n) as u8);
        assert(ds.drop_first() =~= Seq::<u8>::empty());
        assert(dv_acc(ds, 0) == dv_acc(ds.drop_first(), 0 * 10 + (ds[0] - 48)));
        assert(dv_acc(ds.drop_first(), 0 * 10 + (ds[0] - 48)) == 0 * 10 + (ds[0] - 48));
        assert(ds[0] - 48 == n);
    } else {
        lemma_ser_nat_dv(n / 10);
        let last = seq![(48 + n % 10) as u8];
        lemma_dv_acc_concat(ser_nat(n / 10), last, 0);
        let m = dv_acc(ser_nat(n / 10), 0);
        assert(last[0] == (48 + n % 10) as u8);
        assert(last.drop_first() =~= Seq::<u8>::empty());
        assert(dv_acc(last, m) == dv_acc(last.drop_first(), m * 10 + (last[0] - 48)));
        assert(dv_acc(last.drop_first(), m * 10 + (last[0] - 48)) == m * 10 + (last[0] - 48));
        assert(last[0] - 48 == n % 10);
        assert((n / 10) * 10 + n % 10 == n) by (nonlinear_arith);
    }
}

/// Parsing a digit run from within a larger buffer, where the run is
/// followed by a non-digit or the end, accumulates its exact value.
proof fn lemma_rt_uint(s: Seq<u8>, i: int, acc: int, ds: Seq<u8>)
    requires
        0 <= i,
        ds.len() >= 1,
        i + ds.len() <= s.len(),
        s.subrange(i, i + ds.len() as int) == ds,
        forall|k: int| 0 <= k < ds.len() ==> is_digit(#[trigger] ds[k]),
        i + ds.len() == s.len() || !is_digit(s[i + ds.len()]),
        acc >= 0,
        dv_acc(ds, acc) <= INT_MAG_CAP,
    ensures
        p_uint_from(s, i, acc) == Some((dv_acc(ds, acc), i + ds.len())),
    decreases ds.len(),
{
    let w = s.subrange(i, i + ds.len() as int);
    assert(s[i] == w[0] && w[0] == ds[0]);
    let acc2 = acc * 10 + (s[i] - 48);
    let tail = ds.drop_first();
    assert(forall|k: int| 0 <= k < tail.len() ==> is_digit(#[trigger] tail[k]));
    if ds.len() == 1 {
        assert(dv_acc(ds, acc) == dv_acc(tail, acc2));
        assert(tail.len() == 0);
        assert(dv_acc(ds, acc) == acc2);
        assert(!(i + 1 < s.len() && is_digit(s[i + 1])));
    } else {
        assert(s[i + 1] == w[1] && w[1] == ds[1]);
        assert(is_digit(s[i + 1]));
        assert(s.subrange(i + 1, i + 1 + tail.len() as int) =~= tail);
        assert(dv_acc(tail, acc2) == dv_acc(ds, acc));
        lemma_dv_acc_ge(tail, acc2);
        lemma_rt_uint(s, i + 1, acc2, tail);
    }
}

/// Parsing a serialized integer from within a larger buffer, where it is
/// followed by a non-digit or the end, yields the original value.
pub proof fn lemma_rt_int(s: Seq<u8>, i: int, v: int)
    requires
        0 <= i,
        i64::MIN <= v <= i64::MAX,
        i + ser_int(v).len() <= s.len(),
        s.subrange(i, i + ser_int(v).len() as int) == ser_int(v),
        i + ser_int(v).len() == s.len() || !is_digit(s[i + ser_int(v).len()]),
    ensures
        p_int(s, i) == Some((v, i + ser_int(v).len())),
{
    let w = s.subrange(i, i + ser_int(v).len() as int);
    if v < 0 {
        let m = (-v) as nat;
        lemma_ser_nat_digits(m);
        lemma_ser_nat_dv(m);
        assert(ser_int(v) == seq![45u8] + ser_nat(m));
        assert(forall|t: int| 0 <= t < w.len() ==> s[i + t] == #[trigger] w[t]);
        assert(s[i] == w[0] && w[0] == 45);
        let ml = ser_nat(m).len() as int;
        let sub = s.subrange(i + 1, i + 1 + ml);
        assert forall|t: int| 0 <= t < ml implies #[trigger] sub[t] == ser_nat(m)[t] by {
            assert(sub[t] == s[i + 1 + t]);
            assert(s[i + 1 + t] == w[1 + t]);
            assert(w[1 + t] == ser_nat(m)[t]);
        }
        assert(sub =~= ser_nat(m));
        lemma_rt_uint(s, i + 1, 0, ser_nat(m));
    } else {
        let m = v as nat;
        lemma_ser_nat_digits(m);
        lemma_ser_nat_dv(m);
        assert(ser_int(v) == ser_nat(m));
        assert(s[i] == w[0] && w[0] == ser_nat(m)[0]);
        assert(is_digit(s[i]));
        assert(s[i] != 45);
        assert(s.subrange(i, i + ser_nat(m).len() as int) =~= ser_nat(m));
        lemma_rt_uint(s, i, 0, ser_nat(m));
    }
}

/// A window w of s starting at i restricts to smaller windows of s.
proof fn lemma_sub_at(s: Seq<u8>, i: int, w: Seq<u8>, a: int, b: int)
    requires
        0 <= i,
        i + w.len() <= s.len(),
        w == s.subrange(i, i + w.len() as int),
        0 <= a <= b <= w.len(),
    ensures
        s.subrange(i + a, i + b) == w.subrange(a, b),
{
    let sub = s.subrange(i + a, i + b);
    assert forall|t: int| 0 <= t < b - a implies #[trigger] sub[t] == w.subrange(a, b)[t] by {
        assert(sub[t] == s[i + a + t]);
        assert(w[a + t] == s.subrange(i, i + w.len() as int)[a + t]);
        assert(s[i + a + t] == w[a + t]);
    }
    assert(sub =~= w.subrange(a, b));
}

/// Every score value lies in the 64-bit signed range.
pub open spec fn wf_scores_rep(rep: Seq<(Seq<u8>, int)>) -> bool {
    forall|j: int| 0 <= j < rep.len() ==> i64::MIN <= (#[trigger] rep[j]).1 <= i64::MAX
}

/// Parsing a serialized score entry from within a larger buffer yields the
/// original entry.
proof fn lemma_rt_score_entry(s: Seq<u8>, i: int, e: (Seq<u8>, int))
    requires
        0 <= i,
        i64::MIN <= e.1 <= i64::MAX,
        i + ser_score_entry(e).len() <= s.len(),
        s.subrange(i, i + ser_score_entry(e).len() as int) == ser_score_entry(e),
    ensures
        p_score_entry(s, i) == Some((e, i + ser_score_entry(e).len())),
{
    let w = ser_score_entry(e);
    let s1 = ser_string(e.0);
    let nm = ser_int(e.1);
    let o1 = 13 + s1.len() as int;
    let o2 = o1 + 9;
    let o3 = o2 + nm.len() as int;
    assert(w.len() == o3 + 1);
    lemma_sub_at(s, i, w, 0, 13);
    assert(w.subrange(0, 13) =~= lit_score_head());
    lemma_sub_at(s, i, w, 13, o1);
    assert(w.subrange(13, o1) =~= s1);
    lemma_rt_string(s, i + 13, e.0);
    lemma_sub_at(s, i, w, o1, o2);
    assert(w.subrange(o1, o2) =~= lit_score_mid());
    lemma_sub_at(s, i, w, o2, o3);
    assert(w.subrange(o2, o3) =~= nm);
    assert(s[i + o3] == w[o3]) by {
        assert(w[o3] == s.subrange(i, i + w.len() as int)[o3]);
    }
    assert(w[o3] == 125);
    assert(!is_digit(s[i + o3]));
    lemma_rt_int(s, i + o2, e.1);
}

/// The score entries from position k on, joined with commas.
pub open spec fn ser_scores_suffix(rep: Seq<(Seq<u8>, int)>, k: int) -> Seq<u8>
    decreases rep.len() - k,
{
    if k < 0 || k >= rep.len() {
        Seq::empty()
    } else {
        ser_score_entry(rep[k]) + if k + 1 < rep.len() {
            seq![44u8] + ser_scores_suffix(rep, k + 1)
        } else {
            Seq::empty()
        }
    }
}

proof fn lemma_scores_items_suffix(rep: Seq<(Seq<u8>, int)>, k: int)
    requires
        0 <= k < rep.len(),
    ensures
        ser_scores_items(rep, rep.len() as int) == ser_scores_items(rep, k) + (if k > 0 {
            seq![44u8]
        } else {
            Seq::<u8>::empty()
        }) + ser_scores_suffix(rep, k),
    decreases rep.len() - k,
{
    let n = rep.len() as int;
    if k == n - 1 {
        if k == 0 {
            assert(ser_scores_items(rep, n) == ser_score_entry(rep[0]));
            assert(ser_scores_suffix(rep, 0) =~= ser_score_entry(rep[0]) + Seq::<u8>::empty());
            assert(ser_scores_items(rep, 0) + Seq::<u8>::empty() + ser_scores_suffix(rep, 0)
                =~= ser_scores_items(rep, n));
        } else {
            assert(ser_scores_suffix(rep, k) =~= ser_score_entry(rep[k]) + Seq::<u8>::empty());
            assert(ser_scores_items(rep, k) + seq![44u8] + ser_scores_suffix(rep, k)
                =~= ser_scores_items(rep, k) + seq![44u8] + ser_score_entry(rep[k]));
        }
    } else {
        lemma_scores_items_suffix(rep, k + 1);
        assert(ser_scores_suffix(rep, k) == ser_score_entry(rep[k]) + (seq![44u8]
            + ser_scores_suffix(rep, k + 1)));
        if k == 0 {
            assert(ser_scores_items(rep, 1) == ser_score_entry(rep[0]));
            assert(ser_scores_items(rep, 1) + seq![44u8] + ser_scores_suffix(rep, 1)
                =~= ser_scores_items(rep, 0) + Seq::<u8>::empty() + ser_scores_suffix(rep, 0));
        } else {
            assert(ser_scores_items(rep, k + 1) == ser_scores_items(rep, k) + seq![44u8]
                + ser_score_entry(rep[k]));
            assert((ser_scores_items(rep, k) + seq![44u8] + ser_score_entry(rep[k])) + seq![44u8]
                + ser_scores_suffix(rep, k + 1) =~= ser_scores_items(rep, k) + seq![44u8]
                + ser_scores_suffix(rep, k));
        }
    }
}

proof fn lemma_rt_scores_rest(s: Seq<u8>, i: int, rep: Seq<(Seq<u8>, int)>, k: int, acc: Seq<
    (Seq<u8>, int),
>)
    requires
        0 <= i,
        0 <= k < rep.len(),
        wf_scores_rep(rep),
        i + ser_scores_suffix(rep, k).len() + 1 <= s.len(),
        s.subrange(i, i + ser_scores_suffix(rep, k).len() + 1) == ser_scores_suffix(rep, k)
            + seq![93u8],
    ensures
        p_scores_rest(s, i, acc) == Some(
            (acc + rep.skip(k), i + ser_scores_suffix(rep, k).len() + 1),
        ),
    decreases rep.len() - k,
{
    let sfx = ser_scores_suffix(rep, k);
    let w = sfx + seq![93u8];
    let e = ser_score_entry(rep[k]);
    let el = e.len() as int;
    if k == rep.len() - 1 {
        assert(sfx =~= e);
        lemma_sub_at(s, i, w, 0, el);
        assert(w.subrange(0, el) =~= e);
        lemma_rt_score_entry(s, i, rep[k]);
        assert(s[i + el] == w[el]) by {
            assert(w[el] == s.subrange(i, i + w.len() as int)[el]);
        }
        assert(w[el] == 93);
        assert(acc + rep.skip(k) =~= acc.push(rep[k]));
    } else {
        assert(sfx == e + (seq![44u8] + ser_scores_suffix(rep, k + 1)));
        lemma_sub_at(s, i, w, 0, el);
        assert(w.subrange(0, el) =~= e);
        lemma_rt_score_entry(s, i, rep[k]);
        assert(s[i + el] == w[el]) by {
            assert(w[el] == s.subrange(i, i + w.len() as int)[el]);
        }
        assert(w[el] == 44);
        let sfx2 = ser_scores_suffix(rep, k + 1);
        lemma_sub_at(s, i, w, el + 1, w.len() as int);
        assert(w.subrange(el + 1, w.len() as int) =~= sfx2 + seq![93u8]);
        lemma_rt_scores_rest(s, i + el + 1, rep, k + 1, acc.push(rep[k]));
        assert(acc.push(rep[k]) + rep.skip(k + 1) =~= acc + rep.skip(k));
    }
}

/// A serialized score list parses back to exactly the scores that went in.
pub proof fn lemma_scores_round_trip(rep: Seq<(Seq<u8>, int)>)
    requires
        wf_scores_rep(rep),
    ensures
        p_scores(ser_scores(rep)) == Some(rep),
{
    let s = ser_scores(rep);
    if rep.len() == 0 {
        assert(ser_scores_items(rep, 0) =~= Seq::<u8>::empty());
        assert(s.len() == 2);
        assert(s[0] == 91 && s[1] == 93);
        assert(Some(Seq::<(Seq<u8>, int)>::empty()) == Some(rep)) by {
            assert(rep =~= Seq::<(Seq<u8>, int)>::empty());
        }
    } else {
        lemma_scores_items_suffix(rep, 0);
        let sfx = ser_scores_suffix(rep, 0);
        assert(ser_scores_items(rep, rep.len() as int) =~= sfx) by {
            assert(ser_scores_items(rep, 0) + Seq::<u8>::empty() + sfx =~= sfx);
        }
        assert(s =~= seq![91u8] + sfx + seq![93u8]);
        assert(s[0] == 91);
        assert(sfx.len() >= 1);
        assert(s[1] == ser_score_entry(rep[0])[0]);
        assert(s[1] == 123);
        assert(!(s.len() == 2 && s[1] == 93));
        let sub = s.subrange(1, 1 + sfx.len() as int + 1);
        assert(sub =~= sfx + seq![93u8]);
        lemma_rt_scores_rest(s, 1, rep, 0, Seq::empty());
        assert(Seq::<(Seq<u8>, int)>::empty() + rep.skip(0) =~= rep);
        assert(1 + sfx.len() + 1 == s.len());
    }
}

/// Parsing a serialized test descriptor from within a larger buffer yields
/// the original descriptor.
proof fn lemma_rt_test_entry(s: Seq<u8>, i: int, e: (Seq<u8>, Seq<u8>, Seq<u8>))
    requires
        0 <= i,
        i + ser_test_entry(e).len() <= s.len(),
        s.subrange(i, i + ser_test_entry(e).len() as int) == ser_test_entry(e),
    ensures
        p_test_entry(s, i) == Some((e, i + ser_test_entry(e).len())),
{
    let w = ser_test_entry(e);
    let s1 = ser_string(e.0);
    let s2 = ser_string(e.1);
    let s3 = ser_string(e.2);
    let o1 = 11 + s1.len() as int;
    let o2 = o1 + 15;
    let o3 = o2 + s2.len() as int;
    let o4 = o3 + 13;
    let o5 = o4 + s3.len() as int;
    assert(w.len() == o5 + 1);
    lemma_sub_at(s, i, w, 0, 11);
    assert(w.subrange(0, 11) =~= lit_test_head());
    lemma_sub_at(s, i, w, 11, o1);
    assert(w.subrange(11, o1) =~= s1);
    lemma_rt_string(s, i + 11, e.0);
    lemma_sub_at(s, i, w, o1, o2);
    assert(w.subrange(o1, o2) =~= lit_test_mid1());
    lemma_sub_at(s, i, w, o2, o3);
    assert(w.subrange(o2, o3) =~= s2);
    lemma_rt_string(s, i + o1 + 15, e.1);
    lemma_sub_at(s, i, w, o3, o4);
    assert(w.subrange(o3, o4) =~= lit_test_mid2());
    lemma_sub_at(s, i, w, o4, o5);
    assert(w.subrange(o4, o5) =~= s3);
    lemma_rt_string(s, i + o3 + 13, e.2);
    assert(s[i + o5] == w[o5]) by {
        assert(w[o5] == s.subrange(i, i + w.len() as int)[o5]);
    }
    assert(w[o5] == 125);
}

/// The test descriptors from position k on, joined with commas.
pub open spec fn ser_tests_suffix(rep: Seq<(Seq<u8>, Seq<u8>, Seq<u8>)>, k: int) -> Seq<u8>
    decreases rep.len() - k,
{
    if k < 0 || k >= rep.len() {
        Seq::empty()
    } else {
        ser_test_entry(rep[k]) + if k + 1 < rep.len() {
            seq![44u8] + ser_tests_suffix(rep, k + 1)
        } else {
            Seq::empty()
        }
    }
}

proof fn lemma_tests_items_suffix(rep: Seq<(Seq<u8>, Seq<u8>, Seq<u8>)>, k: int)
    requires
        0 <= k < rep.len(),
    ensures
        ser_tests_items(rep, rep.len() as int) == ser_tests_items(rep, k) + (if k > 0 {
            seq![44u8]
        } else {
            Seq::<u8>::empty()
        }) + ser_tests_suffix(rep, k),
    decreases rep.len() - k,
{
    let n = rep.len() as int;
    if k == n - 1 {
        if k == 0 {
            assert(ser_tests_items(rep, n) == ser_test_entry(rep[0]));
            assert(ser_tests_suffix(rep, 0) =~= ser_test_entry(rep[0]) + Seq::<u8>::empty());
            assert(ser_tests_items(rep, 0) + Seq::<u8>::empty() + ser_tests_suffix(rep, 0)
                =~= ser_tests_items(rep, n));
        } else {
            assert(ser_tests_suffix(rep, k) =~= ser_test_entry(rep[k]) + Seq::<u8>::empty());
            assert(ser_tests_items(rep, k) + seq![44u8] + ser_tests_suffix(rep, k)
                =~= ser_tests_items(rep, k) + seq![44u8] + ser_test_entry(rep[k]));
        }
    } else {
        lemma_tests_items_suffix(rep, k + 1);
        assert(ser_tests_suffix(rep, k) == ser_test_entry(rep[k]) + (seq![44u8]
            + ser_tests_suffix(rep, k + 1)));
        if k == 0 {
            assert(ser_tests_items(rep, 1) == ser_test_entry(rep[0]));
            assert(ser_tests_items(rep, 1) + seq![44u8] + ser_tests_suffix(rep, 1)
                =~= ser_tests_items(rep, 0) + Seq::<u8>::empty() + ser_tests_suffix(rep, 0));
        } else {
            assert(ser_tests_items(rep, k + 1) == ser_tests_items(rep, k) + seq![44u8]
                + ser_test_entry(rep[k]));
            assert((ser_tests_items(rep, k) + seq![44u8] + ser_test_entry(rep[k])) + seq![44u8]
                + ser_tests_suffix(rep, k + 1) =~= ser_tests_items(rep, k) + seq![44u8]
                + ser_tests_suffix(rep, k));
        }
    }
}

proof fn lemma_rt_tests_rest(
    s: Seq<u8>,
    i: int,
    rep: Seq<(Seq<u8>, Seq<u8>, Seq<u8>)>,
    k: int,
    acc: Seq<(Seq<u8>, Seq<u8>, Seq<u8>)>,
)
    requires
        0 <= i,
        0 <= k < rep.len(),
        i + ser_tests_suffix(rep, k).len() + 1 <= s.len(),
        s.subrange(i, i + ser_tests_suffix(rep, k).len() + 1) == ser_tests_suffix(rep, k)
            + seq![93u8],
    ensures
        p_tests_rest(s, i, acc) == Some(
            (acc + rep.skip(k), i + ser_tests_suffix(rep, k).len() + 1),
        ),
    decreases rep.len() - k,
{
    let sfx = ser_tests_suffix(rep, k);
    let w = sfx + seq![93u8];
    let e = ser_test_entry(rep[k]);
    let el = e.len() as int;
    if k == rep.len() - 1 {
        assert(sfx =~= e);
        lemma_sub_at(s, i, w, 0, el);
        assert(w.subrange(0, el) =~= e);
        lemma_rt_test_entry(s, i, rep[k]);
        assert(s[i + el] == w[el]) by {
            assert(w[el] == s.subrange(i, i + w.len() as int)[el]);
        }
        assert(w[el] == 93);
        assert(acc + rep.skip(k) =~= acc.push(rep[k]));
    } else {
        assert(sfx == e + (seq![44u8] + ser_tests_suffix(rep, k + 1)));
        lemma_sub_at(s, i, w, 0, el);
        assert(w.subrange(0, el) =~= e);
        lemma_rt_test_entry(s, i, rep[k]);
        assert(s[i + el] == w[el]) by {
            assert(w[el] == s.subrange(i, i + w.len() as int)[el]);
        }
        assert(w[el] == 44);
        let sfx2 = ser_tests_suffix(rep, k + 1);
        lemma_sub_at(s, i, w, el + 1, w.len() as int);
        assert(w.subrange(el + 1, w.len() as int) =~= sfx2 + seq![93u8]);
        lemma_rt_tests_rest(s, i + el + 1, rep, k + 1, acc.push(rep[k]));
        assert(acc.push(rep[k]) + rep.skip(k + 1) =~= acc + rep.skip(k));
    }
}

/// Parsing a serialized descriptor list from within a larger buffer yields
/// the original descriptors.
proof fn lemma_rt_tests(s: Seq<u8>, i: int, rep: Seq<(Seq<u8>, Seq<u8>, Seq<u8>)>)
    requires
        0 <= i,
        i + ser_tests(rep).len() <= s.len(),
        s.subrange(i, i + ser_tests(rep).len() as int) == ser_tests(rep),
    ensures
        p_tests(s, i) == Some((rep, i + ser_tests(rep).len())),
{
    let w = ser_tests(rep);
    assert(forall|t: int| 0 <= t < w.len() ==> s[i + t] == #[trigger] w[t]) by {
        assert(forall|t: int|
            0 <= t < w.len() ==> #[trigger] s.subrange(i, i + w.len() as int)[t] == s[i + t]);
    }
    assert(s[i] == w[0] && w[0] == 91);
    if rep.len() == 0 {
        assert(ser_tests_items(rep, 0) =~= Seq::<u8>::empty());
        assert(w.len() == 2);
        assert(s[i + 1] == w[1] && w[1] == 93);
        assert(p_tests(s, i) == Some((Seq::<(Seq<u8>, Seq<u8>, Seq<u8>)>::empty(), i + 2)));
        assert(rep =~= Seq::<(Seq<u8>, Seq<u8>, Seq<u8>)>::empty());
    } else {
        lemma_tests_items_suffix(rep, 0);
        let sfx = ser_tests_suffix(rep, 0);
        assert(ser_tests_items(rep, rep.len() as int) =~= sfx) by {
            assert(ser_tests_items(rep, 0) + Seq::<u8>::empty() + sfx =~= sfx);
        }
        assert(w =~= seq![91u8] + sfx + seq![93u8]);
        assert(sfx.len() >= 1);
        assert(s[i + 1] == w[1]);
        assert(w[1] == ser_test_entry(rep[0])[0]);
        assert(w[1] == 123);
        assert(!(i + 1 < s.len() && s[i + 1] == 93));
        lemma_sub_at(s, i, w, 1, w.len() as int);
        assert(w.subrange(1, w.len() as int) =~= sfx + seq![93u8]);
        lemma_rt_tests_rest(s, i + 1, rep, 0, Seq::empty());
        assert(Seq::<(Seq<u8>, Seq<u8>, Seq<u8>)>::empty() + rep.skip(0) =~= rep);
    }
}

/// One catalog entry's serialized form.
pub open spec fn ser_catalog_suffix(
    rep: Seq<(Seq<u8>, Seq<(Seq<u8>, Seq<u8>, Seq<u8>)>)>,
    k: int,
) -> Seq<u8>
    decreases rep.len() - k,
{
    if k < 0 || k >= rep.len() {
        Seq::empty()
    } else {
        ser_catalog_entry(rep[k]) + if k + 1 < rep.len() {
            seq![44u8] + ser_catalog_suffix(rep, k + 1)
        } else {
            Seq::empty()
        }
    }
}

proof fn lemma_catalog_items_suffix(rep: Seq<(Seq<u8>, Seq<(Seq<u8>, Seq<u8>, Seq<u8>)>)>, k: int)
    requires
        0 <= k < rep.len(),
    ensures
        ser_catalog_items(rep, rep.len() as int) == ser_catalog_items(rep, k) + (if k > 0 {
            seq![44u8]
        } else {
            Seq::<u8>::empty()
        }) + ser_catalog_suffix(rep, k),
    decreases rep.len() - k,
{
    let n = rep.len() as int;
    if k == n - 1 {
        if k == 0 {
            assert(ser_catalog_items(rep, n) == ser_catalog_entry(rep[0]));
            assert(ser_catalog_suffix(rep, 0) =~= ser_catalog_entry(rep[0]) + Seq::<u8>::empty());
            assert(ser_catalog_items(rep, 0) + Seq::<u8>::empty() + ser_catalog_suffix(rep, 0)
                =~= ser_catalog_items(rep, n));
        } else {
            assert(ser_catalog_suffix(rep, k) =~= ser_catalog_entry(rep[k]) + Seq::<u8>::empty());
            assert(ser_catalog_items(rep, k) + seq![44u8] + ser_catalog_suffix(rep, k)
                =~= ser_catalog_items(rep, k) + seq![44u8] + ser_catalog_entry(rep[k]));
        }
    } else {
        lemma_catalog_items_suffix(rep, k + 1);
        assert(ser_catalog_suffix(rep, k) == ser_catalog_entry(rep[k]) + (seq![44u8]
            + ser_catalog_suffix(rep, k + 1)));
        if k == 0 {
            assert(ser_catalog_items(rep, 1) == ser_catalog_entry(rep[0]));
            assert(ser_catalog_items(rep, 1) + seq![44u8] + ser_catalog_suffix(rep, 1)
                =~= ser_catalog_items(rep, 0) + Seq::<u8>::empty() + ser_catalog_suffix(rep, 0));
        } else {
            assert(ser_catalog_items(rep, k + 1) == ser_catalog_items(rep, k) + seq![44u8]
                + ser_catalog_entry(rep[k]));
            assert((ser_catalog_items(rep, k) + seq![44u8] + ser_catalog_entry(rep[k])) + seq![44u8]
                + ser_catalog_suffix(rep, k + 1) =~= ser_catalog_items(rep, k) + seq![44u8]
                + ser_catalog_suffix(rep, k));
        }
    }
}

proof fn lemma_rt_catalog_rest(
    s: Seq<u8>,
    i: int,
    rep: Seq<(Seq<u8>, Seq<(Seq<u8>, Seq<u8>, Seq<u8>)>)>,
    k: int,
    acc: Seq<(Seq<u8>, Seq<(Seq<u8>, Seq<u8>, Seq<u8>)>)>,
)
    requires
        0 <= i,
        0 <= k < rep.len(),
        i + ser_catalog_suffix(rep, k).len() + 1 <= s.len(),
        s.subrange(i, i + ser_catalog_suffix(rep, k).len() + 1) == ser_catalog_suffix(rep, k)
            + seq![125u8],
    ensures
        p_catalog_rest(s, i, acc) == Some(
            (acc + rep.skip(k), i + ser_catalog_suffix(rep, k).len() + 1),
        ),
    decreases rep.len() - k,
{
    let sfx = ser_catalog_suffix(rep, k);
    let w = sfx + seq![125u8];
    let e = ser_catalog_entry(rep[k]);
    let el = e.len() as int;
    let ks = ser_string(rep[k].0);
    let ts = ser_tests(rep[k].1);
    assert(el == ks.len() + 1 + ts.len());
    lemma_sub_at(s, i, w, 0, el);
    if k == rep.len() - 1 {
        assert(sfx =~= e);
        assert(w.subrange(0, el) =~= e);
    } else {
        assert(sfx == e + (seq![44u8] + ser_catalog_suffix(rep, k + 1)));
        assert(w.subrange(0, el) =~= e);
    }
    assert(s.subrange(i, i + el) == e);
    lemma_sub_at(s, i + 0, e, 0, ks.len() as int);
    assert(s.subrange(i, i + ks.len() as int) == e.subrange(0, ks.len() as int));
    assert(e.subrange(0, ks.len() as int) =~= ks);
    lemma_rt_string(s, i, rep[k].0);
    let o1 = i + ks.len() as int;
    assert(s[o1] == e[ks.len() as int]) by {
        assert(e[ks.len() as int] == s.subrange(i, i + el)[ks.len() as int]);
    }
    assert(e[ks.len() as int] == 58);
    lemma_sub_at(s, i, e, ks.len() as int + 1, el);
    assert(e.subrange(ks.len() as int + 1, el) =~= ts);
    lemma_rt_tests(s, o1 + 1, rep[k].1);
    let o2 = o1 + 1 + ts.len() as int;
    assert(o2 == i + el);
    assert(s[o2] == w[el]) by {
        assert(w[el] == s.subrange(i, i + w.len() as int)[el]);
    }
    if k == rep.len() - 1 {
        assert(w[el] == 125);
        assert(acc + rep.skip(k) =~= acc.push(rep[k]));
    } else {
        assert(w[el] == 44);
        let sfx2 = ser_catalog_suffix(rep, k + 1);
        lemma_sub_at(s, i, w, el + 1, w.len() as int);
        assert(w.subrange(el + 1, w.len() as int) =~= sfx2 + seq![125u8]);
        lemma_rt_catalog_rest(s, i + el + 1, rep, k + 1, acc.push(rep[k]));
        assert(acc.push(rep[k]) + rep.skip(k + 1) =~= acc + rep.skip(k));
    }
}

/// A serialized catalog parses back to exactly the catalog that went in.
pub proof fn lemma_catalog_round_trip(rep: Seq<(Seq<u8>, Seq<(Seq<u8>, Seq<u8>, Seq<u8>)>)>)
    ensures
        p_catalog(ser_catalog(rep)) == Some(rep),
{
    let s = ser_catalog(rep);
    if rep.len() == 0 {
        assert(ser_catalog_items(rep, 0) =~= Seq::<u8>::empty());
        assert(s.len() == 2);
        assert(s[0] == 123 && s[1] == 125);
        assert(rep =~= Seq::<(Seq<u8>, Seq<(Seq<u8>, Seq<u8>, Seq<u8>)>)>::empty());
    } else {
        lemma_catalog_items_suffix(rep, 0);
        let sfx = ser_catalog_suffix(rep, 0);
        assert(ser_catalog_items(rep, rep.len() as int) =~= sfx) by {
            assert(ser_catalog_items(rep, 0) + Seq::<u8>::empty() + sfx =~= sfx);
        }
        assert(s =~= seq![123u8] + sfx + seq![125u8]);
        assert(s[0] == 123);
        assert(sfx.len() >= 1);
        assert(s[1] == ser_catalog_entry(rep[0])[0]);
        assert(s[1] == 34);
        assert(!(s.len() == 2 && s[1] == 125));
        let sub = s.subrange(1, 1 + sfx.len() as int + 1);
        assert(sub =~= sfx + seq![125u8]);
        lemma_rt_catalog_rest(s, 1, rep, 0, Seq::empty());
        assert(Seq::<(Seq<u8>, Seq<(Seq<u8>, Seq<u8>, Seq<u8>)>)>::empty() + rep.skip(0) =~= rep);
        assert(1 + sfx.len() + 1 == s.len());
    }
}

} // verus!
