//! The reference sequence and the scoring routine: comparing a candidate
//! sequence against the reference yields a feedback value.

use vstd::prelude::*;
use vstd::string::StrSliceExecFns;
use crate::feedback::{valid_feedback, PbfStats};

verus! {

/// The symbols of a piece of text, in order.
pub fn chars_of(s: &str) -> (r: Vec<char>)
    ensures
        r@ == s@,
{
    let n = s.unicode_len();
    let mut r: Vec<char> = Vec::new();
    for i in 0..n
        invariant
            n == s@.len(),
            r@ == s@.take(i as int),
        decreases n - i,
    {
        let c = s.get_char(i);
        r.push(c);
        proof {
            assert(s@.take(i + 1) =~= s@.take(i as int).push(s@[i as int]));
        }
    }
    proof {
        assert(s@.take(n as int) =~= s@);
    }
    r
}

/// Number of positions `i < n` where `s` and `g` hold the same symbol.
pub open spec fn count_aligned(s: Seq<char>, g: Seq<char>, n: int) -> int
    decreases n,
{
    if n <= 0 {
        0
    } else {
        count_aligned(s, g, n - 1) + if s[n - 1] == g[n - 1] {
            1int
        } else {
            0int
        }
    }
}

/// Number of positions `i < n` where the symbol `g[i]` occurs somewhere in
/// `s`. Presence is by set membership: repeated occurrences in `s` are not
/// counted separately.
pub open spec fn count_present(s: Seq<char>, g: Seq<char>, n: int) -> int
    decreases n,
{
    if n <= 0 {
        0
    } else {
        count_present(s, g, n - 1) + if s.contains(g[n - 1]) {
            1int
        } else {
            0int
        }
    }
}

/// The feedback that comparing candidate `g` against reference `s` yields:
/// `f` counts equal-and-aligned pairs, `p` counts candidate symbols present
/// in the reference minus those already counted in `f`.
pub open spec fn spec_compare(s: Seq<char>, g: Seq<char>) -> PbfStats {
    PbfStats {
        f: count_aligned(s, g, s.len() as int) as i32,
        p: (count_present(s, g, s.len() as int) - count_aligned(s, g, s.len() as int)) as i32,
    }
}

/// Both counts lie between 0 and `n`, and an aligned match is in particular
/// a presence match, so `count_aligned <= count_present`.
pub proof fn lemma_count_bounds(s: Seq<char>, g: Seq<char>, n: int)
    requires
        0 <= n <= s.len(),
        n <= g.len(),
    ensures
        0 <= count_aligned(s, g, n) <= n,
        0 <= count_present(s, g, n) <= n,
        count_aligned(s, g, n) <= count_present(s, g, n),
    decreases n,
{
    if n > 0 {
        lemma_count_bounds(s, g, n - 1);
    }
}

/// Comparing any sequence of equal length yields a valid feedback value.
pub proof fn lemma_compare_valid(s: Seq<char>, g: Seq<char>)
    requires
        s.len() == g.len(),
        s.len() <= i32::MAX,
    ensures
        valid_feedback(spec_compare(s, g), s.len() as int),
{
    lemma_count_bounds(s, g, s.len() as int);
}

/// Comparing a sequence against itself aligns every position and leaves no
/// presence-only match: the feedback is `f == len`, `p == 0`.
pub proof fn lemma_compare_self(s: Seq<char>)
    requires
        s.len() <= i32::MAX,
    ensures
        spec_compare(s, s) == (PbfStats { p: 0, f: s.len() as i32 }),
{
    lemma_counts_on_self(s, s.len() as int);
}

proof fn lemma_counts_on_self(s: Seq<char>, n: int)
    requires
        n <= s.len(),
    ensures
        count_aligned(s, s, n) == if n <= 0 {
            0int
        } else {
            n
        },
        count_present(s, s, n) == if n <= 0 {
            0int
        } else {
            n
        },
    decreases n,
{
    if n > 0 {
        lemma_counts_on_self(s, n - 1);
    }
}

/// A reference sequence: an ordered sequence of symbols, compared against
/// candidate sequences of the same length. It also stands for any candidate
/// sequence, so that the same comparison routine serves both purposes.
pub struct Secret {
    in_order: Vec<char>,
}

impl View for Secret {
    type V = Seq<char>;

    closed spec fn view(&self) -> Seq<char> {
        self.in_order@
    }
}

/// `true` exactly when `v` holds the symbol `c` somewhere.
pub fn has_symbol(v: &Vec<char>, c: char) -> (r: bool)
    ensures
        r == v@.contains(c),
{
    let n = v.len();
    for i in 0..n
        invariant
            n == v@.len(),
            forall|k: int| 0 <= k < i ==> v@[k] != c,
    {
        if v[i] == c {
            return true;
        }
    }
    false
}

impl Secret {
    /// Wraps an ordered sequence of symbols as a reference sequence.
    pub fn new(available_guess: Vec<char>) -> (s: Secret)
        ensures
            s@ == available_guess@,
    {
        Secret { in_order: available_guess }
    }

    /// The symbols of the reference in order, as a candidate guess.
    pub fn as_guess(&self) -> (r: &Vec<char>)
        ensures
            r@ == self@,
    {
        &self.in_order
    }

    /// An owned copy of this reference sequence.
    pub fn duplicate(&self) -> (r: Secret)
        ensures
            r@ == self@,
    {
        let copy = clone_word(&self.in_order);
        Secret { in_order: copy }
    }

    /// Scores the candidate `guess` against this reference: `f` counts
    /// aligned matches, `p` counts symbols of the guess present in the
    /// reference that are not aligned matches.
    pub fn compare(&self, guess: &Vec<char>) -> (r: PbfStats)
        requires
            guess@.len() == self@.len(),
            self@.len() <= i32::MAX,
        ensures
            r == spec_compare(self@, guess@),
            valid_feedback(r, self@.len() as int),
    {
        let n = self.in_order.len();
        let mut aligned: usize = 0;
        let mut present: usize = 0;
        for i in 0..n
            invariant
                n == self@.len(),
                n == guess@.len(),
                n <= i32::MAX,
                aligned == count_aligned(self@, guess@, i as int),
                present == count_present(self@, guess@, i as int),
            decreases n - i,
        {
            proof {
                lemma_count_bounds(self@, guess@, i as int);
            }
            if self.in_order[i] == guess[i] {
                aligned = aligned + 1;
            }
            if has_symbol(&self.in_order, guess[i]) {
                present = present + 1;
            }
        }
        proof {
            lemma_count_bounds(self@, guess@, n as int);
        }
        PbfStats { f: aligned as i32, p: (present - aligned) as i32 }
    }
}

/// An owned copy of a word, symbol for symbol.
pub fn clone_word(w: &Vec<char>) -> (r: Vec<char>)
    ensures
        r@ == w@,
{
    let r = w.clone();
    proof {
        assert(r@ =~= w@);
    }
    r
}

} // verus!
