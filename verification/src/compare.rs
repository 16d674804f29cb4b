//! The regression analyzer: classifies a new run of scores against a prior
//! run as an improvement, a regression, no meaningful change, or unknown.
//!
//! Scores are exact values: a score is an integer in whatever fixed unit the
//! caller chooses (the classification only ever looks at ratios of scores, so
//! the unit cancels out). Percent changes are handled as exact rationals and
//! every threshold comparison is exact; the mean percent change is compared
//! against its threshold with unbounded naturals, so no rounding enters the
//! decision anywhere.

use vstd::prelude::*;

use crate::bignat::BigNat;
use crate::text::{bytes_eq, clone_bytes};

verus! {

/// The classification of a run, or of one paired score, against its base.
#[derive(Clone, Copy, Debug, PartialEq, Eq, Structural)]
pub enum EvalOutcome {
    Improvement,
    Regression,
    NoChange,
    Unknown,
}

/// One case's score in one run, keyed by the stable hash of the case.
#[derive(Debug)]
pub struct SingleEvalScore {
    pub eval_hash: Vec<u8>,
    pub score: i64,
}

/// All scores one run produced.
pub type EvalRunScores = Vec<SingleEvalScore>;

/// One paired case whose change crossed the individual threshold.
#[derive(Debug)]
pub struct MeaningfulEvalScore {
    pub eval_hash: Vec<u8>,
    pub previous_score: i64,
    pub current_score: i64,
    pub outcome: EvalOutcome,
}

/// How many entries of s carry the hash h.
pub open spec fn count_hash(s: Seq<SingleEvalScore>, h: Seq<u8>) -> int
    decreases s.len(),
{
    if s.len() == 0 {
        0
    } else {
        count_hash(s.drop_last(), h) + if s.last().eval_hash@ == h {
            1int
        } else {
            0int
        }
    }
}

pub proof fn lemma_count_bounds(s: Seq<SingleEvalScore>, h: Seq<u8>)
    ensures
        0 <= count_hash(s, h) <= s.len(),
    decreases s.len(),
{
    if s.len() > 0 {
        lemma_count_bounds(s.drop_last(), h);
    }
}

/// The count is zero exactly when no entry carries the hash.
pub proof fn lemma_count_zero(s: Seq<SingleEvalScore>, h: Seq<u8>)
    ensures
        (count_hash(s, h) == 0) <==> (forall|j: int|
            0 <= j < s.len() ==> s[j].eval_hash@ != h),
    decreases s.len(),
{
    if s.len() > 0 {
        lemma_count_zero(s.drop_last(), h);
        lemma_count_bounds(s.drop_last(), h);
        assert(forall|j: int| 0 <= j < s.len() - 1 ==> s.drop_last()[j] == s[j]);
        if count_hash(s, h) == 0 {
            assert(s.last().eval_hash@ != h);
        }
    }
}

/// With count one, any two matching positions are the same position.
pub proof fn lemma_count_one_unique(s: Seq<SingleEvalScore>, h: Seq<u8>, i: int, j: int)
    requires
        count_hash(s, h) == 1,
        0 <= i < s.len(),
        0 <= j < s.len(),
        s[i].eval_hash@ == h,
        s[j].eval_hash@ == h,
    ensures
        i == j,
    decreases s.len(),
{
    if i != j {
        let hi = if i < j { j } else { i };
        let lo = if i < j { i } else { j };
        if hi == s.len() - 1 {
            assert(count_hash(s.drop_last(), h) == 0);
            lemma_count_zero(s.drop_last(), h);
            assert(s.drop_last()[lo].eval_hash@ == h);
        } else {
            assert(s.last().eval_hash@ == h ==> count_hash(s.drop_last(), h) == 0);
            if s.last().eval_hash@ == h {
                lemma_count_zero(s.drop_last(), h);
                assert(s.drop_last()[lo].eval_hash@ == h);
            } else {
                assert(count_hash(s.drop_last(), h) == 1);
                assert(s.drop_last()[lo].eval_hash@ == h);
                assert(s.drop_last()[hi].eval_hash@ == h);
                lemma_count_one_unique(s.drop_last(), h, lo, hi);
            }
        }
    }
}

/// How many entries of v carry the hash h.
pub fn count_hash_exec(v: &EvalRunScores, h: &Vec<u8>) -> (c: usize)
    ensures
        c as int == count_hash(v@, h@),
{
    let n = v.len();
    let mut c: usize = 0;
    let mut i: usize = 0;
    proof {
        assert(v@.take(0) =~= Seq::<SingleEvalScore>::empty());
    }
    while i < n
        invariant
            i <= n,
            n == v@.len(),
            c <= i,
            c as int == count_hash(v@.take(i as int), h@),
        decreases n - i,
    {
        proof {
            assert(v@.take(i as int + 1).drop_last() =~= v@.take(i as int));
            assert(v@.take(i as int + 1).last() == v@[i as int]);
        }
        if bytes_eq(&v[i].eval_hash, h) {
            c += 1;
        }
        i += 1;
    }
    proof {
        assert(v@.take(n as int) =~= v@);
    }
    c
}

/// The first position of v carrying the hash h, if any.
pub fn find_hash(v: &EvalRunScores, h: &Vec<u8>) -> (r: Option<usize>)
    ensures
        match r {
            Some(i) => 0 <= i < v@.len() && v@[i as int].eval_hash@ == h@,
            None => forall|j: int| 0 <= j < v@.len() ==> v@[j].eval_hash@ != h@,
        },
{
    let n = v.len();
    let mut i: usize = 0;
    while i < n
        invariant
            i <= n,
            n == v@.len(),
            forall|j: int| 0 <= j < i ==> v@[j].eval_hash@ != h@,
        decreases n - i,
    {
        if bytes_eq(&v[i].eval_hash, h) {
            return Some(i);
        }
        i += 1;
    }
    None
}

/// The absolute value.
pub open spec fn abs_int(x: int) -> int {
    if x < 0 {
        -x
    } else {
        x
    }
}

/// Numerator of the exact percent change from score p to score c.
/// With a nonzero base the change is (c - p) / |p|; a move off a zero base
/// counts as a full-scale increase, and no move at all as zero.
pub open spec fn pc_num(p: int, c: int) -> int {
    if p != 0 {
        c - p
    } else if c != 0 {
        1
    } else {
        0
    }
}

/// Denominator of the exact percent change from score p to score c.
pub open spec fn pc_den(p: int, c: int) -> int {
    if p != 0 {
        abs_int(p)
    } else {
        1
    }
}

/// The percent change exceeds the individual threshold of one tenth.
pub open spec fn sig_improvement(p: int, c: int) -> bool {
    10 * pc_num(p, c) > pc_den(p, c)
}

/// The percent change falls below minus the individual threshold.
pub open spec fn sig_regression(p: int, c: int) -> bool {
    10 * pc_num(p, c) < -pc_den(p, c)
}

/// How one paired case is classified on its own.
pub open spec fn individual_outcome(p: int, c: int) -> EvalOutcome {
    if sig_improvement(p, c) {
        EvalOutcome::Improvement
    } else if sig_regression(p, c) {
        EvalOutcome::Regression
    } else {
        EvalOutcome::NoChange
    }
}

/// A hash is paired when each side holds exactly one entry for it.
pub open spec fn is_paired(prev: Seq<SingleEvalScore>, cur: Seq<SingleEvalScore>, h: Seq<u8>) -> bool {
    count_hash(prev, h) == 1 && count_hash(cur, h) == 1
}

/// The score of the entry of s carrying hash h; meaningful when that entry
/// is unique.
pub open spec fn hash_score(s: Seq<SingleEvalScore>, h: Seq<u8>) -> int {
    s[choose|j: int| 0 <= j < s.len() && s[j].eval_hash@ == h].score as int
}

/// The paired cases among the first k entries of cur, in cur's order:
/// (hash, previous score, current score).
pub open spec fn pairs_upto(
    prev: Seq<SingleEvalScore>,
    cur: Seq<SingleEvalScore>,
    k: int,
) -> Seq<(Seq<u8>, int, int)>
    decreases k,
{
    if k <= 0 {
        Seq::empty()
    } else {
        pairs_upto(prev, cur, k - 1) + if is_paired(prev, cur, cur[k - 1].eval_hash@) {
            seq![(cur[k - 1].eval_hash@, hash_score(prev, cur[k - 1].eval_hash@), cur[k - 1].score as int)]
        } else {
            Seq::empty()
        }
    }
}

/// All paired cases, in cur's order.
pub open spec fn spec_pairs(
    prev: Seq<SingleEvalScore>,
    cur: Seq<SingleEvalScore>,
) -> Seq<(Seq<u8>, int, int)> {
    pairs_upto(prev, cur, cur.len() as int)
}

/// One paired case as the comparison works on it.
struct ScorePair {
    eval_hash: Vec<u8>,
    previous: i64,
    current: i64,
}

spec fn pair_matches(e: ScorePair, t: (Seq<u8>, int, int)) -> bool {
    e.eval_hash@ == t.0 && e.previous as int == t.1 && e.current as int == t.2
}

spec fn pairs_correspond(v: Seq<ScorePair>, t: Seq<(Seq<u8>, int, int)>) -> bool {
    v.len() == t.len() && forall|i: int| 0 <= i < v.len() ==> pair_matches(#[trigger] v[i], t[i])
}

/// Collect the paired cases in the order of the current run.
fn build_pairs(previous: &EvalRunScores, current: &EvalRunScores) -> (r: Vec<ScorePair>)
    ensures
        pairs_correspond(r@, spec_pairs(previous@, current@)),
{
    let n = current.len();
    let mut out: Vec<ScorePair> = Vec::new();
    let mut k: usize = 0;
    while k < n
        invariant
            k <= n,
            n == current@.len(),
            pairs_correspond(out@, pairs_upto(previous@, current@, k as int)),
        decreases n - k,
    {
        let h = &current[k].eval_hash;
        let cur_count = count_hash_exec(current, h);
        let prev_count = count_hash_exec(previous, h);
        let ghost before = pairs_upto(previous@, current@, k as int);
        let ghost after = pairs_upto(previous@, current@, k as int + 1);
        if cur_count == 1 && prev_count == 1 {
            match find_hash(previous, h) {
                Some(idx) => {
                    proof {
                        let cj = choose|j: int|
                            0 <= j < previous@.len() && previous@[j].eval_hash@ == h@;
                        lemma_count_one_unique(previous@, h@, cj, idx as int);
                        assert(hash_score(previous@, h@) == previous@[idx as int].score as int);
                    }
                    let pair = ScorePair {
                        eval_hash: clone_bytes(h),
                        previous: previous[idx].score,
                        current: current[k].score,
                    };
                    out.push(pair);
                },
                None => {
                    proof {
                        lemma_count_zero(previous@, h@);
                    }
                },
            }
        } else {
            proof {
                assert(after =~= before);
            }
        }
        k += 1;
    }
    out
}

/// How many of the first k pairs are individually significant improvements.
pub open spec fn count_sig_pos(ps: Seq<(Seq<u8>, int, int)>, k: int) -> int
    decreases k,
{
    if k <= 0 {
        0
    } else {
        count_sig_pos(ps, k - 1) + if sig_improvement(ps[k - 1].1, ps[k - 1].2) {
            1int
        } else {
            0int
        }
    }
}

/// How many of the first k pairs are individually significant regressions.
pub open spec fn count_sig_neg(ps: Seq<(Seq<u8>, int, int)>, k: int) -> int
    decreases k,
{
    if k <= 0 {
        0
    } else {
        count_sig_neg(ps, k - 1) + if sig_regression(ps[k - 1].1, ps[k - 1].2) {
            1int
        } else {
            0int
        }
    }
}

/// How many of the first k pairs moved strictly up.
pub open spec fn count_pos(ps: Seq<(Seq<u8>, int, int)>, k: int) -> int
    decreases k,
{
    if k <= 0 {
        0
    } else {
        count_pos(ps, k - 1) + if pc_num(ps[k - 1].1, ps[k - 1].2) > 0 {
            1int
        } else {
            0int
        }
    }
}

/// How many of the first k pairs moved strictly down.
pub open spec fn count_neg(ps: Seq<(Seq<u8>, int, int)>, k: int) -> int
    decreases k,
{
    if k <= 0 {
        0
    } else {
        count_neg(ps, k - 1) + if pc_num(ps[k - 1].1, ps[k - 1].2) < 0 {
            1int
        } else {
            0int
        }
    }
}

/// Numerator of the exact sum of the first k percent changes, written over
/// the running common denominator sum_den_upto.
pub open spec fn sum_num_upto(ps: Seq<(Seq<u8>, int, int)>, k: int) -> int
    decreases k,
{
    if k <= 0 {
        0
    } else {
        sum_num_upto(ps, k - 1) * pc_den(ps[k - 1].1, ps[k - 1].2) + pc_num(
            ps[k - 1].1,
            ps[k - 1].2,
        ) * sum_den_upto(ps, k - 1)
    }
}

/// Denominator of the exact sum of the first k percent changes: the product
/// of the per-pair denominators.
pub open spec fn sum_den_upto(ps: Seq<(Seq<u8>, int, int)>, k: int) -> int
    decreases k,
{
    if k <= 0 {
        1
    } else {
        sum_den_upto(ps, k - 1) * pc_den(ps[k - 1].1, ps[k - 1].2)
    }
}

pub proof fn lemma_sum_den_pos(ps: Seq<(Seq<u8>, int, int)>, k: int)
    ensures
        sum_den_upto(ps, k) >= 1,
    decreases k,
{
    if k > 0 {
        lemma_sum_den_pos(ps, k - 1);
        let d = sum_den_upto(ps, k - 1);
        let w = pc_den(ps[k - 1].1, ps[k - 1].2);
        assert(w >= 1);
        assert(d * w >= 1) by (nonlinear_arith)
            requires
                d >= 1,
                w >= 1,
        ;
    }
}

/// The mean percent change of the pairs lies within one hundredth of zero:
/// |sum / len| <= 1/100, stated without division.
pub open spec fn mean_within_threshold(ps: Seq<(Seq<u8>, int, int)>) -> bool {
    100 * abs_int(sum_num_upto(ps, ps.len() as int)) <= (ps.len() as int) * sum_den_upto(
        ps,
        ps.len() as int,
    )
}

/// The meaningful entries among the first k pairs: those whose own
/// classification is not NoChange, with that classification.
pub open spec fn meaningful_upto(ps: Seq<(Seq<u8>, int, int)>, k: int) -> Seq<
    (Seq<u8>, int, int, EvalOutcome),
>
    decreases k,
{
    if k <= 0 {
        Seq::empty()
    } else {
        meaningful_upto(ps, k - 1) + if individual_outcome(ps[k - 1].1, ps[k - 1].2)
            != EvalOutcome::NoChange {
            seq![
                (
                    ps[k - 1].0,
                    ps[k - 1].1,
                    ps[k - 1].2,
                    individual_outcome(ps[k - 1].1, ps[k - 1].2),
                ),
            ]
        } else {
            Seq::empty()
        }
    }
}

/// The meaningful changes of a comparison, in the order of the current run.
pub open spec fn spec_meaningful(
    prev: Seq<SingleEvalScore>,
    cur: Seq<SingleEvalScore>,
) -> Seq<(Seq<u8>, int, int, EvalOutcome)> {
    meaningful_upto(spec_pairs(prev, cur), spec_pairs(prev, cur).len() as int)
}

/// The overall classification of a comparison.
///
/// Three tiers: with no pairs at all the outcome is Unknown; with any
/// individually significant pair the significant counts decide, a tie giving
/// Unknown; otherwise a mean within one hundredth gives NoChange, and beyond
/// it the side that moved more than seven tenths of the pairs wins, neither
/// side giving Unknown.
pub open spec fn spec_outcome(prev: Seq<SingleEvalScore>, cur: Seq<SingleEvalScore>) -> EvalOutcome {
    let ps = spec_pairs(prev, cur);
    let n = ps.len() as int;
    if n == 0 {
        EvalOutcome::Unknown
    } else {
        let sp = count_sig_pos(ps, n);
        let sn = count_sig_neg(ps, n);
        if sp > 0 || sn > 0 {
            if sp > sn {
                EvalOutcome::Improvement
            } else if sn > sp {
                EvalOutcome::Regression
            } else {
                EvalOutcome::Unknown
            }
        } else if mean_within_threshold(ps) {
            EvalOutcome::NoChange
        } else {
            let np = count_pos(ps, n);
            let nn = count_neg(ps, n);
            if 10 * np > 7 * n {
                EvalOutcome::Improvement
            } else if 10 * nn > 7 * n {
                EvalOutcome::Regression
            } else {
                EvalOutcome::Unknown
            }
        }
    }
}

/// One executable meaningful entry carries the fields of one spec entry.
pub open spec fn meaningful_matches(e: MeaningfulEvalScore, t: (Seq<u8>, int, int, EvalOutcome)) -> bool {
    e.eval_hash@ == t.0 && e.previous_score as int == t.1 && e.current_score as int == t.2
        && e.outcome == t.3
}

/// The executable meaningful-change list carries exactly the entries of the
/// specification list.
pub open spec fn meaningful_correspond(
    v: Seq<MeaningfulEvalScore>,
    t: Seq<(Seq<u8>, int, int, EvalOutcome)>,
) -> bool {
    v.len() == t.len() && forall|i: int|
        0 <= i < v.len() ==> meaningful_matches(#[trigger] v[i], t[i])
}

/// The exact percent change of one pair as numerator and denominator.
fn pc_parts(p: i64, c: i64) -> (r: (i128, u64))
    ensures
        r.0 == pc_num(p as int, c as int),
        r.1 as int == pc_den(p as int, c as int),
{
    if p != 0 {
        let num = c as i128 - p as i128;
        let den: u64 = if p < 0 {
            (-(p as i128)) as u64
        } else {
            p as u64
        };
        (num, den)
    } else if c != 0 {
        (1, 1)
    } else {
        (0, 1)
    }
}

/// Decides whether the mean percent change of the pairs lies within the
/// threshold, with exact unbounded arithmetic.
fn mean_check(pairs: &Vec<ScorePair>, Ghost(ps): Ghost<Seq<(Seq<u8>, int, int)>>) -> (r: bool)
    requires
        pairs_correspond(pairs@, ps),
    ensures
        r == mean_within_threshold(ps),
{
    let n = pairs.len();
    let mut pos = BigNat::from_u64(0);
    let mut neg = BigNat::from_u64(0);
    let mut den = BigNat::from_u64(1);
    let mut i: usize = 0;
    while i < n
        invariant
            i <= n,
            n == pairs@.len(),
            pairs_correspond(pairs@, ps),
            den.val() as int == sum_den_upto(ps, i as int),
            pos.val() as int - neg.val() as int == sum_num_upto(ps, i as int),
        decreases n - i,
    {
        let (num, den_w) = pc_parts(pairs[i].previous, pairs[i].current);
        let mag: u64 = if num < 0 {
            (-num) as u64
        } else {
            num as u64
        };
        let mut term = den.duplicate();
        term.mul_word(mag);
        let ghost p0 = pos.val() as int;
        let ghost n0 = neg.val() as int;
        let ghost d0 = den.val() as int;
        pos.mul_word(den_w);
        neg.mul_word(den_w);
        if num > 0 {
            pos.add_nat(&term);
        } else if num < 0 {
            neg.add_nat(&term);
        }
        den.mul_word(den_w);
        proof {
            let dw = pc_den(ps[i as int].1, ps[i as int].2);
            let nm = pc_num(ps[i as int].1, ps[i as int].2);
            assert(den_w as int == dw);
            assert(num == nm);
            assert(mag as int == abs_int(nm));
            assert(term.val() as int == d0 * abs_int(nm));
            assert(sum_den_upto(ps, i as int + 1) == d0 * dw);
            assert(sum_num_upto(ps, i as int + 1) == sum_num_upto(ps, i as int) * dw + nm * d0);
            let p1 = pos.val() as int;
            let n1 = neg.val() as int;
            assert(d0 * abs_int(nm) == abs_int(nm) * d0) by (nonlinear_arith);
            if nm > 0 {
                assert(p1 == p0 * dw + nm * d0);
                assert(n1 == n0 * dw);
            } else if nm < 0 {
                assert(p1 == p0 * dw);
                assert(n1 == n0 * dw + (-nm) * d0);
            } else {
                assert(p1 == p0 * dw);
                assert(n1 == n0 * dw);
            }
            assert(p1 - n1 == (p0 - n0) * dw + nm * d0) by (nonlinear_arith)
                requires
                    (nm > 0 ==> p1 == p0 * dw + nm * d0 && n1 == n0 * dw),
                    (nm < 0 ==> p1 == p0 * dw && n1 == n0 * dw + (-nm) * d0),
                    (nm == 0 ==> p1 == p0 * dw && n1 == n0 * dw),
            ;
        }
        i += 1;
    }
    let mut lhs_pos = pos.duplicate();
    lhs_pos.mul_word(100);
    let mut rhs_pos = den.duplicate();
    rhs_pos.mul_word(n as u64);
    let mut t1 = neg.duplicate();
    t1.mul_word(100);
    rhs_pos.add_nat(&t1);
    let c1 = lhs_pos.le(&rhs_pos);
    let mut lhs_neg = neg.duplicate();
    lhs_neg.mul_word(100);
    let mut rhs_neg = den.duplicate();
    rhs_neg.mul_word(n as u64);
    let mut t2 = pos.duplicate();
    t2.mul_word(100);
    rhs_neg.add_nat(&t2);
    let c2 = lhs_neg.le(&rhs_neg);
    proof {
        let s = sum_num_upto(ps, ps.len() as int);
        let d = sum_den_upto(ps, ps.len() as int);
        // the common denominator is positive, so comparing the
        // cross-multiplied sides decides the mean threshold exactly
        lemma_sum_den_pos(ps, ps.len() as int);
        let pv = pos.val() as int;
        let nv = neg.val() as int;
        assert(pv - nv == s);
        assert(lhs_pos.val() as int == pv * 100);
        assert(rhs_pos.val() as int == d * (n as int) + nv * 100);
        assert(lhs_neg.val() as int == nv * 100);
        assert(rhs_neg.val() as int == d * (n as int) + pv * 100);
    }
    c1 && c2
}

/// Compare a current run's scores against a previous run's.
///
/// Cases are paired by hash; a hash that does not appear exactly once on each
/// side is ignored. The first component is the overall classification per
/// spec_outcome; the second lists every individually significant pair, in
/// the order of the current run.
pub fn compare_results(previous: &EvalRunScores, current: &EvalRunScores) -> (r: (
    EvalOutcome,
    Vec<MeaningfulEvalScore>,
))
    ensures
        r.0 == spec_outcome(previous@, current@),
        meaningful_correspond(r.1@, spec_meaningful(previous@, current@)),
{
    let pairs = build_pairs(previous, current);
    let ghost ps = spec_pairs(previous@, current@);
    let n = pairs.len();
    let mut meaningful: Vec<MeaningfulEvalScore> = Vec::new();
    let mut sp: usize = 0;
    let mut sn: usize = 0;
    let mut np: usize = 0;
    let mut nn: usize = 0;
    let mut i: usize = 0;
    while i < n
        invariant
            i <= n,
            n == pairs@.len(),
            pairs_correspond(pairs@, ps),
            sp as int == count_sig_pos(ps, i as int),
            sn as int == count_sig_neg(ps, i as int),
            np as int == count_pos(ps, i as int),
            nn as int == count_neg(ps, i as int),
            sp <= i && sn <= i && np <= i && nn <= i,
            meaningful_correspond(meaningful@, meaningful_upto(ps, i as int)),
        decreases n - i,
    {
        let (num, den_w) = pc_parts(pairs[i].previous, pairs[i].current);
        let improvement = 10 * num > den_w as i128;
        let regression = 10 * num < -(den_w as i128);
        let ghost before = meaningful_upto(ps, i as int);
        let ghost after = meaningful_upto(ps, i as int + 1);
        if improvement {
            sp += 1;
            proof {
                let t = ps[i as int];
                assert(sig_improvement(t.1, t.2));
                assert(after =~= before.push(
                    (t.0, t.1, t.2, individual_outcome(t.1, t.2)),
                ));
            }
            let entry = MeaningfulEvalScore {
                eval_hash: clone_bytes(&pairs[i].eval_hash),
                previous_score: pairs[i].previous,
                current_score: pairs[i].current,
                outcome: EvalOutcome::Improvement,
            };
            meaningful.push(entry);
        } else if regression {
            sn += 1;
            proof {
                let t = ps[i as int];
                assert(!sig_improvement(t.1, t.2));
                assert(sig_regression(t.1, t.2));
                assert(after =~= before.push(
                    (t.0, t.1, t.2, individual_outcome(t.1, t.2)),
                ));
            }
            let entry = MeaningfulEvalScore {
                eval_hash: clone_bytes(&pairs[i].eval_hash),
                previous_score: pairs[i].previous,
                current_score: pairs[i].current,
                outcome: EvalOutcome::Regression,
            };
            meaningful.push(entry);
        } else {
            proof {
                let t = ps[i as int];
                assert(!sig_improvement(t.1, t.2));
                assert(!sig_regression(t.1, t.2));
                assert(after =~= before);
            }
        }
        if num > 0 {
            np += 1;
        } else if num < 0 {
            nn += 1;
        }
        i += 1;
    }
    if n == 0 {
        return (EvalOutcome::Unknown, meaningful);
    }
    if sp > 0 || sn > 0 {
        let outcome = if sp > sn {
            EvalOutcome::Improvement
        } else if sn > sp {
            EvalOutcome::Regression
        } else {
            EvalOutcome::Unknown
        };
        return (outcome, meaningful);
    }
    let mean_small = mean_check(&pairs, Ghost(ps));
    if mean_small {
        return (EvalOutcome::NoChange, meaningful);
    }
    let outcome = if 10 * (np as u128) > 7 * (n as u128) {
        EvalOutcome::Improvement
    } else if 10 * (nn as u128) > 7 * (n as u128) {
        EvalOutcome::Regression
    } else {
        EvalOutcome::Unknown
    };
    (outcome, meaningful)
}

pub proof fn lemma_counts_bounded(ps: Seq<(Seq<u8>, int, int)>, k: int)
    ensures
        0 <= count_sig_pos(ps, k) <= if k >= 0 { k } else { 0 },
        0 <= count_sig_neg(ps, k) <= if k >= 0 { k } else { 0 },
        0 <= count_pos(ps, k) <= if k >= 0 { k } else { 0 },
        0 <= count_neg(ps, k) <= if k >= 0 { k } else { 0 },
    decreases k,
{
    if k > 0 {
        lemma_counts_bounded(ps, k - 1);
    }
}

/// Two runs with no paired hash compare as Unknown with nothing meaningful:
/// a hash present on only one side is ignored entirely.
pub proof fn lemma_no_pairs_unknown(prev: Seq<SingleEvalScore>, cur: Seq<SingleEvalScore>)
    requires
        spec_pairs(prev, cur).len() == 0,
    ensures
        spec_outcome(prev, cur) == EvalOutcome::Unknown,
        spec_meaningful(prev, cur).len() == 0,
{
}

/// Individually significant pairs dominate the overall outcome: whichever
/// side holds more of them wins outright, and an exact nonzero tie yields
/// Unknown, whatever the mean or the consistency of the remaining pairs.
pub proof fn lemma_significant_counts_decide(prev: Seq<SingleEvalScore>, cur: Seq<SingleEvalScore>)
    ensures
        count_sig_pos(spec_pairs(prev, cur), spec_pairs(prev, cur).len() as int) > count_sig_neg(
            spec_pairs(prev, cur),
            spec_pairs(prev, cur).len() as int,
        ) ==> spec_outcome(prev, cur) == EvalOutcome::Improvement,
        count_sig_neg(spec_pairs(prev, cur), spec_pairs(prev, cur).len() as int) > count_sig_pos(
            spec_pairs(prev, cur),
            spec_pairs(prev, cur).len() as int,
        ) ==> spec_outcome(prev, cur) == EvalOutcome::Regression,
        (count_sig_pos(spec_pairs(prev, cur), spec_pairs(prev, cur).len() as int) == count_sig_neg(
            spec_pairs(prev, cur),
            spec_pairs(prev, cur).len() as int,
        ) && count_sig_pos(spec_pairs(prev, cur), spec_pairs(prev, cur).len() as int) > 0)
            ==> spec_outcome(prev, cur) == EvalOutcome::Unknown,
{
    let ps = spec_pairs(prev, cur);
    lemma_counts_bounded(ps, ps.len() as int);
}

/// With no individually significant pair and a mean percent change within
/// one hundredth of zero, the runs compare as NoChange.
pub proof fn lemma_below_thresholds_no_change(prev: Seq<SingleEvalScore>, cur: Seq<SingleEvalScore>)
    requires
        spec_pairs(prev, cur).len() > 0,
        count_sig_pos(spec_pairs(prev, cur), spec_pairs(prev, cur).len() as int) == 0,
        count_sig_neg(spec_pairs(prev, cur), spec_pairs(prev, cur).len() as int) == 0,
        mean_within_threshold(spec_pairs(prev, cur)),
    ensures
        spec_outcome(prev, cur) == EvalOutcome::NoChange,
{
}

/// With no individually significant pair and a mean beyond the threshold,
/// the side that moved strictly more than seven tenths of the pairs wins;
/// if neither side did, the outcome is Unknown.
pub proof fn lemma_consistency_decides(prev: Seq<SingleEvalScore>, cur: Seq<SingleEvalScore>)
    requires
        spec_pairs(prev, cur).len() > 0,
        count_sig_pos(spec_pairs(prev, cur), spec_pairs(prev, cur).len() as int) == 0,
        count_sig_neg(spec_pairs(prev, cur), spec_pairs(prev, cur).len() as int) == 0,
        !mean_within_threshold(spec_pairs(prev, cur)),
    ensures
        10 * count_pos(spec_pairs(prev, cur), spec_pairs(prev, cur).len() as int) > 7 * (spec_pairs(
            prev,
            cur,
        ).len() as int) ==> spec_outcome(prev, cur) == EvalOutcome::Improvement,
        (10 * count_pos(spec_pairs(prev, cur), spec_pairs(prev, cur).len() as int) <= 7 * (
        spec_pairs(prev, cur).len() as int) && 10 * count_neg(
            spec_pairs(prev, cur),
            spec_pairs(prev, cur).len() as int,
        ) > 7 * (spec_pairs(prev, cur).len() as int)) ==> spec_outcome(prev, cur)
            == EvalOutcome::Regression,
        (10 * count_pos(spec_pairs(prev, cur), spec_pairs(prev, cur).len() as int) <= 7 * (
        spec_pairs(prev, cur).len() as int) && 10 * count_neg(
            spec_pairs(prev, cur),
            spec_pairs(prev, cur).len() as int,
        ) <= 7 * (spec_pairs(prev, cur).len() as int)) ==> spec_outcome(prev, cur)
            == EvalOutcome::Unknown,
{
}

/// A pair that moves off a zero base to any nonzero score counts as a
/// full-scale increase and is classified an improvement on its own.
pub proof fn lemma_zero_previous_full_increase(c: int)
    requires
        c != 0,
    ensures
        pc_num(0, c) == 1,
        pc_den(0, c) == 1,
        individual_outcome(0, c) == EvalOutcome::Improvement,
{
}

} // verus!
