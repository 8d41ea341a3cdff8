//! The feedback a guess receives: `f` counts positions where guess and
//! reference hold the same symbol, `p` counts guess symbols that occur
//! somewhere in the reference but were not counted in `f`.

use vstd::prelude::*;
use vstd::string::StringExecFns;

verus! {

/// Feedback for one guess. For a reference of length `n` a feedback value
/// always satisfies `0 <= f <= n` and `0 <= p <= n - f`.
#[derive(Clone, Copy, Debug, PartialEq, Eq, Structural)]
pub struct PbfStats {
    /// Number of guess symbols that exist in the reference but not in the
    /// matching position.
    pub p: i32,

    /// Number of guess symbols that exist in the reference in the same
    /// position.
    pub f: i32,
}

/// The text a feedback value displays as: `b` when nothing matched, else
/// one `f` per positional match followed by one `p` per presence-only
/// match.
pub open spec fn feedback_text(fb: PbfStats) -> Seq<char> {
    if fb.p == 0 && fb.f == 0 {
        seq!['b']
    } else {
        Seq::new(fb.f as nat, |i: int| 'f') + Seq::new(fb.p as nat, |i: int| 'p')
    }
}

impl PbfStats {
    /// The feedback the text `guess` receives against the reference
    /// sequence: the same scoring as `Secret::compare`, with the guess
    /// taken as it was typed.
    pub fn create(secret: &crate::secret::Secret, guess: &str) -> (r: PbfStats)
        requires
            guess@.len() == secret@.len(),
            secret@.len() <= i32::MAX,
        ensures
            r == crate::secret::spec_compare(secret@, guess@),
            valid_feedback(r, secret@.len() as int),
    {
        let symbols = crate::secret::chars_of(guess);
        secret.compare(&symbols)
    }

    /// Renders the feedback as text: `b`, or `f`s followed by `p`s.
    pub fn to_text(&self) -> (r: String)
        requires
            self.f >= 0,
            self.p >= 0,
        ensures
            r@ == feedback_text(*self),
    {
        proof {
            reveal_strlit("");
            reveal_strlit("b");
            reveal_strlit("f");
            reveal_strlit("p");
        }
        if self.p == 0 && self.f == 0 {
            let r = String::from_str("b");
            proof {
                assert(r@ =~= feedback_text(*self));
            }
            return r;
        }
        let mut r = String::from_str("");
        let fs: usize = self.f as usize;
        let ps: usize = self.p as usize;
        for i in 0..fs
            invariant
                fs == self.f,
                "f"@ =~= seq!['f'],
                r@ == Seq::new(i as nat, |k: int| 'f'),
            decreases fs - i,
        {
            r.append("f");
            proof {
                assert(r@ =~= Seq::new((i + 1) as nat, |k: int| 'f'));
            }
        }
        for i in 0..ps
            invariant
                fs == self.f,
                ps == self.p,
                "p"@ =~= seq!['p'],
                r@ == Seq::new(fs as nat, |k: int| 'f') + Seq::new(i as nat, |k: int| 'p'),
            decreases ps - i,
        {
            r.append("p");
            proof {
                assert(r@ =~= Seq::new(fs as nat, |k: int| 'f') + Seq::new(
                    (i + 1) as nat,
                    |k: int| 'p',
                ));
            }
        }
        r
    }
}

/// The combinatorial invariant a feedback value obeys for sequences of
/// length `len`.
pub open spec fn valid_feedback(fb: PbfStats, len: int) -> bool {
    &&& 0 <= fb.f <= len
    &&& 0 <= fb.p <= len - fb.f
}

/// All feedback values with `f == row_f` that a sequence of length `len`
/// admits, ordered by `p`.
pub open spec fn outcome_row(row_f: int, len: int) -> Seq<PbfStats>
    recommends
        0 <= row_f <= len,
{
    Seq::new((len - row_f + 1) as nat, |p: int| PbfStats { p: p as i32, f: row_f as i32 })
}

/// The rows of feedback values for `f < f_bound`, concatenated in order of
/// ascending `f`.
pub open spec fn outcomes_upto(f_bound: int, len: int) -> Seq<PbfStats>
    decreases f_bound,
{
    if f_bound <= 0 {
        Seq::empty()
    } else {
        outcomes_upto(f_bound - 1, len) + outcome_row(f_bound - 1, len)
    }
}

/// Every feedback value that is combinatorially possible for a sequence of
/// `len` positions: every way to split `len` slots among a positional match,
/// a presence-only match, and no match. Ordered by `f`, then by `p`.
pub open spec fn all_outcomes(len: int) -> Seq<PbfStats> {
    outcomes_upto(len + 1, len)
}

/// Every entry of `outcomes_upto(f_bound, len)` is a valid feedback value
/// with `f < f_bound`, and conversely every such value is an entry.
proof fn lemma_outcomes_upto_membership(f_bound: int, len: int)
    requires
        f_bound <= len + 1,
        len <= i32::MAX,
    ensures
        forall|fb: PbfStats|
            outcomes_upto(f_bound, len).contains(fb) <==> (valid_feedback(fb, len) && fb.f
                < f_bound),
    decreases f_bound,
{
    broadcast use vstd::seq_lib::group_seq_properties;

    if f_bound > 0 {
        lemma_outcomes_upto_membership(f_bound - 1, len);
        let row = outcome_row(f_bound - 1, len);
        assert forall|fb: PbfStats| row.contains(fb) implies (valid_feedback(fb, len) && fb.f
            == f_bound - 1) by {
            let i = choose|i: int| 0 <= i < row.len() && row[i] == fb;
        }
        assert forall|fb: PbfStats| valid_feedback(fb, len) && fb.f == f_bound - 1 implies row.contains(
            fb,
        ) by {
            assert(row[fb.p as int] == fb);
        }
    }
}

/// The feedback values possible for length `len` are exactly the valid ones.
pub proof fn lemma_all_outcomes_membership(len: int)
    requires
        0 <= len <= i32::MAX,
    ensures
        forall|fb: PbfStats| all_outcomes(len).contains(fb) <==> valid_feedback(fb, len),
{
    lemma_outcomes_upto_membership(len + 1, len);
}

/// The outcome space of any length holds at least one value.
pub proof fn lemma_all_outcomes_nonempty(len: int)
    requires
        len >= 0,
    ensures
        all_outcomes(len).len() >= 1,
{
    broadcast use vstd::seq_lib::group_seq_properties;

    assert(outcome_row(len, len).len() == 1);
}

} // verus!
