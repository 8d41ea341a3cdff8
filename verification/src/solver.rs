//! The guess-solving engine: it owns the guess history and the shrinking set
//! of candidate secrets, and selects the next guess by a minimax rule over
//! the possible feedback partitions.

use vstd::prelude::*;
use vstd::arithmetic::power::pow;
use crate::feedback::{all_outcomes, outcome_row, outcomes_upto, valid_feedback, PbfStats};
use crate::secret::{clone_word, spec_compare, Secret};

verus! {

/// A guess someone has made, together with the feedback it received.
pub struct Guess {
    /// The guessed sequence of symbols.
    pub guess: Vec<char>,
    /// The feedback reported for this guess.
    pub result: PbfStats,
}

/// The recorded history a vector of guesses stands for: each entry is the
/// guessed sequence paired with its reported feedback.
pub open spec fn history_of(gs: Seq<Guess>) -> Seq<(Seq<char>, PbfStats)> {
    gs.map_values(|g: Guess| (g.guess@, g.result))
}

/// The sequences a vector of reference values stands for.
pub open spec fn secret_views(ss: Seq<Secret>) -> Seq<Seq<char>> {
    ss.map_values(|s: Secret| s@)
}

/// A candidate `w` is consistent with a history exactly when comparing `w`
/// against every recorded guess reproduces that guess's recorded feedback.
pub open spec fn consistent_with(w: Seq<char>, h: Seq<(Seq<char>, PbfStats)>) -> bool {
    forall|j: int| 0 <= j < h.len() ==> spec_compare(w, (#[trigger] h[j]).0) == h[j].1
}

/// The words of `ws`, in order, that are consistent with the history `h`.
pub open spec fn sift(ws: Seq<Seq<char>>, h: Seq<(Seq<char>, PbfStats)>) -> Seq<Seq<char>>
    decreases ws.len(),
{
    if ws.len() == 0 {
        Seq::empty()
    } else if consistent_with(ws.last(), h) {
        sift(ws.drop_last(), h).push(ws.last())
    } else {
        sift(ws.drop_last(), h)
    }
}

/// The candidate set after a history `h`: every word over the alphabet that
/// is consistent with every recorded guess, in enumeration order.
pub open spec fn surviving(space: Seq<char>, len: nat, h: Seq<(Seq<char>, PbfStats)>) -> Seq<
    Seq<char>,
> {
    sift(all_words(space, len), h)
}

/// Sifting never grows a word list.
pub proof fn lemma_sift_len(ws: Seq<Seq<char>>, h: Seq<(Seq<char>, PbfStats)>)
    ensures
        sift(ws, h).len() <= ws.len(),
    decreases ws.len(),
{
    if ws.len() > 0 {
        lemma_sift_len(ws.drop_last(), h);
    }
}

/// A word stands in `sift(ws, h)` exactly when it stands in `ws` and is
/// consistent with `h`.
pub proof fn lemma_sift_membership(ws: Seq<Seq<char>>, h: Seq<(Seq<char>, PbfStats)>, x: Seq<char>)
    ensures
        sift(ws, h).contains(x) <==> (ws.contains(x) && consistent_with(x, h)),
    decreases ws.len(),
{
    broadcast use vstd::seq_lib::group_seq_properties;

    if ws.len() > 0 {
        let prefix = ws.drop_last();
        lemma_sift_membership(prefix, h, x);
        assert(ws =~= prefix.push(ws.last()));
    }
}

/// Sifting with an empty history keeps every word.
pub proof fn lemma_sift_empty(ws: Seq<Seq<char>>, h: Seq<(Seq<char>, PbfStats)>)
    requires
        h.len() == 0,
    ensures
        sift(ws, h) == ws,
    decreases ws.len(),
{
    if ws.len() > 0 {
        lemma_sift_empty(ws.drop_last(), h);
        assert(sift(ws, h) =~= ws);
    }
}

/// Sifting by a history and then by one more guess is sifting by the history
/// extended with that guess.
pub proof fn lemma_sift_extend(
    ws: Seq<Seq<char>>,
    h: Seq<(Seq<char>, PbfStats)>,
    g: (Seq<char>, PbfStats),
)
    ensures
        sift(sift(ws, h), seq![g]) == sift(ws, h.push(g)),
    decreases ws.len(),
{
    broadcast use vstd::seq_lib::group_seq_properties;

    if ws.len() > 0 {
        let prefix = ws.drop_last();
        lemma_sift_extend(prefix, h, g);
        let last = ws.last();
        assert(h.push(g)[h.len() as int] == g);
        assert forall|j: int| 0 <= j < h.len() implies #[trigger] h.push(g)[j] == h[j] by {}
        assert(seq![g][0] == g);
        if consistent_with(last, h) {
            let inner = sift(prefix, h).push(last);
            assert(inner.drop_last() =~= sift(prefix, h));
            assert(inner.last() == last);
            if spec_compare(last, g.0) == g.1 {
                assert(consistent_with(last, seq![g]));
                assert(consistent_with(last, h.push(g)));
            } else {
                assert(!consistent_with(last, seq![g]));
                assert(!consistent_with(last, h.push(g)));
            }
        } else {
            let j = choose|j: int| 0 <= j < h.len() && spec_compare(last, h[j].0) != h[j].1;
            assert(h.push(g)[j] == h[j]);
            assert(!consistent_with(last, h.push(g)));
        }
    }
}

/// The sequences a vector of words stands for, word by word.
pub open spec fn views_of(ws: Seq<Vec<char>>) -> Seq<Seq<char>> {
    ws.map_values(|v: Vec<char>| v@)
}

/// Every word of `extend_one(w, al)`: `w` extended at the end by one symbol
/// of `al`, in alphabet order.
pub open spec fn extend_one(w: Seq<char>, al: Seq<char>) -> Seq<Seq<char>>
    decreases al.len(),
{
    if al.len() == 0 {
        Seq::empty()
    } else {
        extend_one(w, al.drop_last()).push(w.push(al.last()))
    }
}

/// Every word of `ws`, each extended at the end by each symbol of `al`:
/// words in `ws` order, extensions in alphabet order.
pub open spec fn extend_all(ws: Seq<Seq<char>>, al: Seq<char>) -> Seq<Seq<char>>
    decreases ws.len(),
{
    if ws.len() == 0 {
        Seq::empty()
    } else {
        extend_all(ws.drop_last(), al) + extend_one(ws.last(), al)
    }
}

/// Every sequence of `n` symbols drawn from the alphabet `al`, with
/// repetition allowed and order significant, enumerated with the leftmost
/// position most significant.
pub open spec fn all_words(al: Seq<char>, n: nat) -> Seq<Seq<char>>
    decreases n,
{
    if n == 0 {
        seq![Seq::<char>::empty()]
    } else {
        extend_all(all_words(al, (n - 1) as nat), al)
    }
}

/// Pushing a word onto a vector of words pushes its sequence onto the views.
proof fn lemma_views_of_push(ws: Seq<Vec<char>>, v: Vec<char>)
    ensures
        views_of(ws.push(v)) == views_of(ws).push(v@),
{
    assert(views_of(ws.push(v)) =~= views_of(ws).push(v@));
}

/// `extend_one(w, al)` holds one word per symbol of `al`: at position `j`,
/// the word `w.push(al[j])`.
proof fn lemma_extend_one_index(w: Seq<char>, al: Seq<char>)
    ensures
        extend_one(w, al).len() == al.len(),
        forall|j: int| 0 <= j < al.len() ==> extend_one(w, al)[j] == w.push(al[j]),
    decreases al.len(),
{
    if al.len() > 0 {
        lemma_extend_one_index(w, al.drop_last());
        assert forall|j: int| 0 <= j < al.len() implies extend_one(w, al)[j] == w.push(al[j]) by {
            if j < al.len() - 1 {
                assert(al.drop_last()[j] == al[j]);
                assert(extend_one(w, al)[j] == extend_one(w, al.drop_last())[j]);
            }
        }
    }
}

/// A word stands in `extend_all(ws, al)` exactly when it is some word of
/// `ws` extended by some symbol of `al`.
proof fn lemma_extend_all_membership(ws: Seq<Seq<char>>, al: Seq<char>, x: Seq<char>)
    ensures
        extend_all(ws, al).contains(x) <==> (exists|k: int, j: int|
            0 <= k < ws.len() && 0 <= j < al.len() && x == ws[k].push(al[j])),
    decreases ws.len(),
{
    broadcast use vstd::seq_lib::group_seq_properties;

    if ws.len() > 0 {
        let prefix = ws.drop_last();
        lemma_extend_all_membership(prefix, al, x);
        lemma_extend_one_index(ws.last(), al);
        if extend_all(ws, al).contains(x) {
            if extend_all(prefix, al).contains(x) {
                let (k, j) = choose|k: int, j: int|
                    0 <= k < prefix.len() && 0 <= j < al.len() && x == prefix[k].push(al[j]);
                assert(prefix[k] == ws[k]);
                assert(x == ws[k].push(al[j]));
            } else {
                assert(extend_one(ws.last(), al).contains(x));
                let j = choose|j: int|
                    0 <= j < al.len() && extend_one(ws.last(), al)[j] == x;
                let k = ws.len() - 1;
                assert(x == ws[k].push(al[j]));
            }
        }
        if exists|k: int, j: int| 0 <= k < ws.len() && 0 <= j < al.len() && x == ws[k].push(al[j]) {
            let (k, j) = choose|k: int, j: int|
                0 <= k < ws.len() && 0 <= j < al.len() && x == ws[k].push(al[j]);
            if k < ws.len() - 1 {
                assert(prefix[k] == ws[k]);
                assert(extend_all(prefix, al).contains(x));
            } else {
                assert(extend_one(ws.last(), al)[j] == x);
                assert(extend_one(ws.last(), al).contains(x));
            }
            assert(extend_all(ws, al).contains(x));
        }
    }
}

/// A word stands in `all_words(al, n)` exactly when it has length `n` and
/// all of its symbols are drawn from `al`.
pub proof fn lemma_all_words_membership(al: Seq<char>, n: nat, x: Seq<char>)
    ensures
        all_words(al, n).contains(x) <==> (x.len() == n && (forall|i: int|
            0 <= i < n ==> al.contains(#[trigger] x[i]))),
    decreases n,
{
    broadcast use vstd::seq_lib::group_seq_properties;

    if n == 0 {
        if x.len() == 0 {
            assert(x =~= Seq::<char>::empty());
            assert(all_words(al, n)[0] == Seq::<char>::empty());
        }
    } else {
        let prev = all_words(al, (n - 1) as nat);
        lemma_extend_all_membership(prev, al, x);
        if all_words(al, n).contains(x) {
            let (k, j) = choose|k: int, j: int|
                0 <= k < prev.len() && 0 <= j < al.len() && x == prev[k].push(al[j]);
            let w = prev[k];
            assert(prev.contains(w));
            lemma_all_words_membership(al, (n - 1) as nat, w);
            assert forall|i: int| 0 <= i < n implies al.contains(#[trigger] x[i]) by {
                if i < n - 1 {
                    assert(x[i] == w[i]);
                } else {
                    assert(x[i] == al[j]);
                }
            }
        }
        if x.len() == n && (forall|i: int| 0 <= i < n ==> al.contains(#[trigger] x[i])) {
            let w = x.drop_last();
            assert forall|i: int| 0 <= i < n - 1 implies al.contains(#[trigger] w[i]) by {
                assert(w[i] == x[i]);
            }
            lemma_all_words_membership(al, (n - 1) as nat, w);
            assert(prev.contains(w));
            let k = choose|k: int| 0 <= k < prev.len() && prev[k] == w;
            assert(al.contains(x.last()));
            let j = choose|j: int| 0 <= j < al.len() && al[j] == x.last();
            assert(x =~= w.push(al[j]));
            assert(all_words(al, n).contains(x));
        }
    }
}

proof fn lemma_extend_all_len(ws: Seq<Seq<char>>, al: Seq<char>)
    ensures
        extend_all(ws, al).len() == ws.len() * al.len(),
    decreases ws.len(),
{
    if ws.len() > 0 {
        lemma_extend_all_len(ws.drop_last(), al);
        lemma_extend_one_index(ws.last(), al);
        assert((ws.len() - 1) * al.len() + al.len() == ws.len() * al.len()) by (nonlinear_arith);
    }
}

/// Counting law: the full combinatorial space over an alphabet of `m`
/// symbols and `n` positions holds exactly `m ^ n` words.
pub proof fn lemma_all_words_count(al: Seq<char>, n: nat)
    ensures
        all_words(al, n).len() == pow(al.len() as int, n),
    decreases n,
{
    reveal(pow);
    if n > 0 {
        lemma_all_words_count(al, (n - 1) as nat);
        lemma_extend_all_len(all_words(al, (n - 1) as nat), al);
        let m = al.len() as int;
        let prev = pow(m, (n - 1) as nat);
        assert(prev * m == m * prev) by (nonlinear_arith);
        assert(pow(m, n) == m * prev);
        assert(all_words(al, n).len() == prev * m);
    }
}

/// Every word of `all_words(al, n)` has length `n`.
pub proof fn lemma_all_words_lengths(al: Seq<char>, n: nat)
    ensures
        forall|k: int|
            0 <= k < all_words(al, n).len() ==> (#[trigger] all_words(al, n)[k]).len() == n,
{
    let ws = all_words(al, n);
    assert forall|k: int| 0 <= k < ws.len() implies (#[trigger] ws[k]).len() == n by {
        let x = ws[k];
        assert(ws.contains(x));
        lemma_all_words_membership(al, n, x);
    }
}

/// Every sequence of `times` symbols drawn from `items`, with repetition
/// allowed and order significant. The leftmost position is the most
/// significant: the result is in lexicographic order of symbol indices.
pub fn real_combinations(items: &Vec<char>, times: usize) -> (r: Vec<Vec<char>>)
    ensures
        views_of(r@) == all_words(items@, times as nat),
{
    let mut words: Vec<Vec<char>> = Vec::new();
    words.push(Vec::new());
    proof {
        assert(views_of(words@) =~= seq![Seq::<char>::empty()]);
    }
    let mut k: usize = 0;
    while k < times
        invariant
            k <= times,
            views_of(words@) == all_words(items@, k as nat),
        decreases times - k,
    {
        let ghost wv = views_of(words@);
        let mut next: Vec<Vec<char>> = Vec::new();
        proof {
            assert(views_of(next@) =~= extend_all(wv.take(0), items@));
        }
        let word_count = words.len();
        for i in 0..word_count
            invariant
                word_count == words@.len(),
                wv == views_of(words@),
                views_of(next@) == extend_all(wv.take(i as int), items@),
            decreases word_count - i,
        {
            let symbol_count = items.len();
            proof {
                assert(extend_one(wv[i as int], items@.take(0)) =~= Seq::<Seq<char>>::empty());
                assert(views_of(next@) =~= extend_all(wv.take(i as int), items@) + extend_one(
                    wv[i as int],
                    items@.take(0),
                ));
            }
            for j in 0..symbol_count
                invariant
                    word_count == words@.len(),
                    i < word_count,
                    symbol_count == items@.len(),
                    wv == views_of(words@),
                    views_of(next@) == extend_all(wv.take(i as int), items@) + extend_one(
                        wv[i as int],
                        items@.take(j as int),
                    ),
                decreases symbol_count - j,
            {
                let mut nw = clone_word(&words[i]);
                nw.push(items[j]);
                proof {
                    assert(nw@ == wv[i as int].push(items@[j as int]));
                }
                let ghost pre = next@;
                next.push(nw);
                proof {
                    lemma_views_of_push(pre, nw);
                    let aj = items@.take(j + 1);
                    assert(aj.drop_last() =~= items@.take(j as int));
                    assert(aj.last() == items@[j as int]);
                    assert(extend_one(wv[i as int], aj) == extend_one(
                        wv[i as int],
                        items@.take(j as int),
                    ).push(nw@));
                    assert(views_of(next@) =~= extend_all(wv.take(i as int), items@) + extend_one(
                        wv[i as int],
                        aj,
                    ));
                }
            }
            proof {
                assert(items@.take(symbol_count as int) =~= items@);
                let wi = wv.take(i + 1);
                assert(wi.drop_last() =~= wv.take(i as int));
                assert(wi.last() == wv[i as int]);
                assert(extend_all(wi, items@) == extend_all(wv.take(i as int), items@) + extend_one(
                    wv[i as int],
                    items@,
                ));
            }
        }
        proof {
            assert(wv.take(word_count as int) =~= wv);
        }
        words = next;
        k = k + 1;
    }
    words
}

/// A probing guess is fresh when it differs from every recorded guess.
pub open spec fn not_guessed(w: Seq<char>, h: Seq<(Seq<char>, PbfStats)>) -> bool {
    forall|j: int| 0 <= j < h.len() ==> (#[trigger] h[j]).0 != w
}

/// The words of `ws`, in order, that differ from every recorded guess.
pub open spec fn sift_unguessed(ws: Seq<Seq<char>>, h: Seq<(Seq<char>, PbfStats)>) -> Seq<
    Seq<char>,
>
    decreases ws.len(),
{
    if ws.len() == 0 {
        Seq::empty()
    } else if not_guessed(ws.last(), h) {
        sift_unguessed(ws.drop_last(), h).push(ws.last())
    } else {
        sift_unguessed(ws.drop_last(), h)
    }
}

/// The probing guesses the solver chooses from: every word of the space not
/// yet recorded in the history, in enumeration order.
pub open spec fn unguessed(space: Seq<char>, len: nat, h: Seq<(Seq<char>, PbfStats)>) -> Seq<
    Seq<char>,
> {
    sift_unguessed(all_words(space, len), h)
}

/// Number of words of `cands` whose comparison against the probe `g` does
/// not yield the feedback `fb`.
pub open spec fn count_mismatch(cands: Seq<Seq<char>>, g: Seq<char>, fb: PbfStats) -> int
    decreases cands.len(),
{
    if cands.len() == 0 {
        0
    } else {
        count_mismatch(cands.drop_last(), g, fb) + if spec_compare(cands.last(), g) != fb {
            1int
        } else {
            0int
        }
    }
}

/// The least mismatch count over a non-empty list of outcomes.
pub open spec fn min_mismatch(os: Seq<PbfStats>, cands: Seq<Seq<char>>, g: Seq<char>) -> int
    recommends
        os.len() >= 1,
    decreases os.len(),
{
    if os.len() <= 1 {
        count_mismatch(cands, g, os[0])
    } else {
        let rest = min_mismatch(os.drop_last(), cands, g);
        let last = count_mismatch(cands, g, os.last());
        if last < rest {
            last
        } else {
            rest
        }
    }
}

/// The minimax score of a probing guess: over every feedback value possible
/// for the length, the least number of candidates that would not yield that
/// feedback. It is maximal exactly when the largest group of candidates the
/// probe cannot distinguish is minimal.
pub open spec fn probe_score(cands: Seq<Seq<char>>, g: Seq<char>, len: int) -> int {
    min_mismatch(all_outcomes(len), cands, g)
}

/// The probe with the greatest minimax score; a tie is resolved toward the
/// probe that comes later in enumeration order.
pub open spec fn best_probe(probes: Seq<Seq<char>>, cands: Seq<Seq<char>>, len: int) -> Option<
    Seq<char>,
>
    decreases probes.len(),
{
    if probes.len() == 0 {
        None
    } else {
        let last = probes.last();
        match best_probe(probes.drop_last(), cands, len) {
            None => Some(last),
            Some(b) => if probe_score(cands, last, len) >= probe_score(cands, b, len) {
                Some(last)
            } else {
                Some(b)
            },
        }
    }
}

/// What `next_guess` answers, as a function of alphabet, length and history
/// alone: the sole candidate when one is left, `None` when none is left or
/// no probe remains, and otherwise the unrecorded probe with the greatest
/// minimax score, ties resolved toward later enumeration order.
pub open spec fn spec_next_guess(
    space: Seq<char>,
    len: nat,
    h: Seq<(Seq<char>, PbfStats)>,
) -> Option<Seq<char>> {
    let cands = surviving(space, len, h);
    if cands.len() == 0 {
        None
    } else if cands.len() == 1 {
        Some(cands[0])
    } else {
        best_probe(unguessed(space, len, h), cands, len as int)
    }
}

/// The sequence a returned guess stands for, if one was returned.
pub open spec fn option_view(r: Option<Vec<char>>) -> Option<Seq<char>> {
    match r {
        None => None,
        Some(v) => Some(v@),
    }
}

/// Symbol-wise equality of two words.
fn vec_eq(a: &Vec<char>, b: &Vec<char>) -> (r: bool)
    ensures
        r == (a@ == b@),
{
    if a.len() != b.len() {
        return false;
    }
    let n = a.len();
    for i in 0..n
        invariant
            n == a@.len(),
            n == b@.len(),
            forall|k: int| 0 <= k < i ==> a@[k] == b@[k],
        decreases n - i,
    {
        if a[i] != b[i] {
            return false;
        }
    }
    proof {
        assert(a@ =~= b@);
    }
    true
}

/// Sifting by histories that agree on every word of the list gives the same
/// result.
proof fn lemma_sift_agree(
    ws: Seq<Seq<char>>,
    h1: Seq<(Seq<char>, PbfStats)>,
    h2: Seq<(Seq<char>, PbfStats)>,
)
    requires
        forall|k: int|
            0 <= k < ws.len() ==> (consistent_with(#[trigger] ws[k], h1) <==> consistent_with(
                ws[k],
                h2,
            )),
    ensures
        sift(ws, h1) == sift(ws, h2),
    decreases ws.len(),
{
    if ws.len() > 0 {
        let prefix = ws.drop_last();
        assert forall|k: int| 0 <= k < prefix.len() implies (consistent_with(
            #[trigger] prefix[k],
            h1,
        ) <==> consistent_with(prefix[k], h2)) by {
            assert(prefix[k] == ws[k]);
        }
        lemma_sift_agree(prefix, h1, h2);
        assert(ws[ws.len() - 1] == ws.last());
    }
}

/// Pushing a reference value onto a vector of them pushes its sequence onto
/// the views.
proof fn lemma_secret_views_push(ss: Seq<Secret>, s: Secret)
    ensures
        secret_views(ss.push(s)) == secret_views(ss).push(s@),
{
    assert(secret_views(ss.push(s)) =~= secret_views(ss).push(s@));
}

/// The solver: it owns the guess history and the set of candidate secrets
/// still consistent with every recorded guess, and answers what the best
/// next guess is.
pub struct GuessState {
    // Every feedback value that a sequence of `guess_length` positions
    // admits; computed once and reused by the minimax scoring.
    cached_potential_outcomes: Vec<PbfStats>,
    guesses: Vec<Guess>,
    // The candidate secrets consistent with every recorded guess: a word of
    // this list, were it the real secret, would reproduce the feedback of
    // each guess in the history.
    available_guesses: Vec<Secret>,
    // The symbols a guess may use.
    guess_space: Vec<char>,
    // Length of the secret.
    guess_length: usize,
}

impl GuessState {
    /// The alphabet the solver enumerates guesses from.
    pub closed spec fn alphabet(&self) -> Seq<char> {
        self.guess_space@
    }

    /// The length of the secret and of every guess.
    pub closed spec fn length(&self) -> nat {
        self.guess_length as nat
    }

    /// The recorded guesses with their feedback, in entry order.
    pub closed spec fn history(&self) -> Seq<(Seq<char>, PbfStats)> {
        history_of(self.guesses@)
    }

    /// The candidate secrets still consistent with the whole history, in
    /// enumeration order.
    pub closed spec fn candidates(&self) -> Seq<Seq<char>> {
        secret_views(self.available_guesses@)
    }

    /// Well-formedness: the alphabet is non-empty, the length fits the
    /// feedback counters, the outcome cache is exactly the outcome space of
    /// the length, the candidate list is exactly the consistent part of the
    /// full word space, and every recorded guess has the secret's length.
    pub closed spec fn wf(&self) -> bool {
        &&& 1 <= self.guess_space@.len()
        &&& 1 <= self.guess_length <= i32::MAX
        &&& self.cached_potential_outcomes@ == all_outcomes(self.guess_length as int)
        &&& self.candidates() == surviving(self.alphabet(), self.length(), self.history())
        &&& forall|j: int|
            0 <= j < self.history().len() ==> (#[trigger] self.history()[j]).0.len()
                == self.length()
    }

    /// Builds a solver over the given alphabet and secret length. The
    /// candidate set starts as the full combinatorial space — all
    /// `|guess_space| ^ guess_length` words — so this is only tractable for
    /// small alphabets and lengths; the cost is paid once here.
    pub fn new(guess_space: Vec<char>, guess_length: usize) -> (r: GuessState)
        requires
            1 <= guess_space@.len(),
            1 <= guess_length <= i32::MAX as usize,
        ensures
            r.wf(),
            r.alphabet() == guess_space@,
            r.length() == guess_length as nat,
            r.history() == Seq::<(Seq<char>, PbfStats)>::empty(),
            r.candidates() == all_words(guess_space@, guess_length as nat),
    {
        let len = guess_length;
        let ghost li = guess_length as int;
        let mut outcomes: Vec<PbfStats> = Vec::new();
        proof {
            assert(outcomes@ =~= outcomes_upto(0, li));
        }
        let mut f: usize = 0;
        while f <= len
            invariant
                len == guess_length,
                len <= i32::MAX,
                li == guess_length as int,
                f <= len + 1,
                outcomes@ == outcomes_upto(f as int, li),
            decreases len + 1 - f,
        {
            let bound = len - f;
            let mut p: usize = 0;
            proof {
                assert(outcome_row(f as int, li).take(0) =~= Seq::<PbfStats>::empty());
                assert(outcomes@ =~= outcomes_upto(f as int, li) + outcome_row(f as int, li).take(
                    0,
                ));
            }
            while p <= bound
                invariant
                    len <= i32::MAX,
                    li == len as int,
                    f <= len,
                    bound == len - f,
                    p <= bound + 1,
                    outcomes@ == outcomes_upto(f as int, li) + outcome_row(f as int, li).take(
                        p as int,
                    ),
                decreases bound + 1 - p,
            {
                outcomes.push(PbfStats { p: p as i32, f: f as i32 });
                proof {
                    let row = outcome_row(f as int, li);
                    assert(row[p as int] == PbfStats { p: p as i32, f: f as i32 });
                    assert(row.take(p + 1) =~= row.take(p as int).push(row[p as int]));
                    assert(outcomes@ =~= outcomes_upto(f as int, li) + row.take(p + 1));
                }
                p = p + 1;
            }
            proof {
                let row = outcome_row(f as int, li);
                assert(row.take((bound + 1) as int) =~= row);
            }
            f = f + 1;
        }
        let words = real_combinations(&guess_space, guess_length);
        let ghost full = all_words(guess_space@, guess_length as nat);
        let mut available: Vec<Secret> = Vec::new();
        proof {
            assert(secret_views(available@) =~= full.take(0));
        }
        let wcount = words.len();
        for i in 0..wcount
            invariant
                wcount == words@.len(),
                views_of(words@) == full,
                secret_views(available@) == full.take(i as int),
            decreases wcount - i,
        {
            let ghost pre = available@;
            let w = clone_word(&words[i]);
            let s = Secret::new(w);
            available.push(s);
            proof {
                lemma_secret_views_push(pre, s);
                assert(s@ == full[i as int]);
                assert(secret_views(available@) =~= full.take(i + 1));
            }
        }
        proof {
            assert(full.take(wcount as int) =~= full);
        }
        let r = GuessState {
            cached_potential_outcomes: outcomes,
            guesses: Vec::new(),
            available_guesses: available,
            guess_space,
            guess_length,
        };
        proof {
            assert(r.history() =~= Seq::<(Seq<char>, PbfStats)>::empty());
            lemma_sift_empty(full, r.history());
        }
        r
    }

    /// The recorded guesses in entry order, for display.
    pub fn guesses(&self) -> (r: &Vec<Guess>)
        ensures
            history_of(r@) == self.history(),
    {
        &self.guesses
    }

    /// The best next guess, or `None` when the candidate set is empty
    /// (contradictory feedback) or every probe has already been recorded.
    ///
    /// If exactly one candidate remains it is returned at once, skipping the
    /// minimax evaluation. Otherwise every word of the full space that is
    /// not yet in the history is scored, and the probe with the greatest
    /// minimax score is returned; a tie is resolved deterministically toward
    /// the probe that comes later in enumeration order. The answer is a
    /// function of alphabet, length and history alone.
    pub fn next_guess(&self) -> (r: Option<Vec<char>>)
        requires
            self.wf(),
        ensures
            option_view(r) == spec_next_guess(self.alphabet(), self.length(), self.history()),
            self.candidates().len() == 1 ==> option_view(r) == Some(self.candidates()[0]),
    {
        let ghost cands = self.candidates();
        let ghost li = self.guess_length as int;
        let ghost h = self.history();
        let count = self.available_guesses.len();
        if count == 0 {
            None
        } else if count == 1 {
            proof {
                assert(cands[0] == self.available_guesses@[0]@);
            }
            let answer = clone_word(self.available_guesses[0].as_guess());
            Some(answer)
        } else {
            let words = real_combinations(&self.guess_space, self.guess_length);
            let ghost wv = views_of(words@);
            proof {
                lemma_all_words_lengths(self.alphabet(), self.length());
            }
            let mut best: Option<Vec<char>> = None;
            let mut best_score: usize = 0;
            let n = words.len();
            for i in 0..n
                invariant
                    self.wf(),
                    cands == self.candidates(),
                    li == self.guess_length as int,
                    h == self.history(),
                    n == words@.len(),
                    wv == views_of(words@),
                    wv == all_words(self.alphabet(), self.length()),
                    forall|k: int| 0 <= k < n ==> (#[trigger] wv[k]).len() == self.length(),
                    ({
                        let probes = sift_unguessed(wv.take(i as int), h);
                        match best {
                            None => probes.len() == 0,
                            Some(ref b) => Some(b@) == best_probe(probes, cands, li) && best_score
                                as int == probe_score(cands, b@, li),
                        }
                    }),
                decreases n - i,
            {
                proof {
                    assert(wv[i as int] == words@[i as int]@);
                }
                let fresh = !self.already_guessed(&words[i]);
                let ghost probes0 = sift_unguessed(wv.take(i as int), h);
                if fresh {
                    let s = self.score_guess(&words[i]);
                    let take_it = match &best {
                        None => true,
                        Some(_) => s >= best_score,
                    };
                    if take_it {
                        best = Some(clone_word(&words[i]));
                        best_score = s;
                    }
                }
                proof {
                    let pi = wv.take(i + 1);
                    assert(pi.drop_last() =~= wv.take(i as int));
                    assert(pi.last() == wv[i as int]);
                    if fresh {
                        let probes1 = sift_unguessed(pi, h);
                        assert(probes1 == probes0.push(wv[i as int]));
                        assert(probes1.drop_last() =~= probes0);
                        assert(probes1.last() == wv[i as int]);
                    }
                }
            }
            proof {
                assert(wv.take(n as int) =~= wv);
            }
            best
        }
    }

    /// How many candidate secrets are still consistent with the history.
    /// Zero signals contradictory feedback (the exhausted state).
    pub fn candidate_count(&self) -> (r: usize)
        ensures
            r == self.candidates().len(),
    {
        self.available_guesses.len()
    }

    /// Every candidate word has the secret's length.
    pub proof fn lemma_candidate_lengths(&self)
        requires
            self.wf(),
        ensures
            forall|k: int|
                0 <= k < self.candidates().len() ==> (#[trigger] self.candidates()[k]).len()
                    == self.length(),
    {
        let cands = self.candidates();
        let full = all_words(self.alphabet(), self.length());
        assert forall|k: int| 0 <= k < cands.len() implies (#[trigger] cands[k]).len()
            == self.length() by {
            assert(cands.contains(cands[k]));
            lemma_sift_membership(full, self.history(), cands[k]);
            lemma_all_words_membership(self.alphabet(), self.length(), cands[k]);
        }
    }

    /// `true` exactly when the candidate reproduces the recorded feedback of
    /// every guess in the history.
    fn matches_history(&self, candidate: &Secret) -> (r: bool)
        requires
            self.guess_length <= i32::MAX,
            candidate@.len() == self.length(),
            forall|j: int|
                0 <= j < self.history().len() ==> (#[trigger] self.history()[j]).0.len()
                    == self.length(),
        ensures
            r == consistent_with(candidate@, self.history()),
    {
        let n = self.guesses.len();
        for j in 0..n
            invariant
                n == self.guesses@.len(),
                self.guess_length <= i32::MAX,
                candidate@.len() == self.length(),
                forall|k: int|
                    0 <= k < self.history().len() ==> (#[trigger] self.history()[k]).0.len()
                        == self.length(),
                forall|k: int|
                    0 <= k < j ==> spec_compare(candidate@, (#[trigger] self.history()[k]).0)
                        == self.history()[k].1,
            decreases n - j,
        {
            proof {
                assert(self.history()[j as int] == (self.guesses@[j as int].guess@, self.guesses@[
                    j as int].result));
            }
            let fb = candidate.compare(&self.guesses[j].guess);
            if fb != self.guesses[j].result {
                proof {
                    assert(spec_compare(candidate@, self.history()[j as int].0) != self.history()[
                        j as int].1);
                }
                return false;
            }
        }
        true
    }

    /// `true` exactly when the word has already been recorded as a guess.
    fn already_guessed(&self, w: &Vec<char>) -> (r: bool)
        ensures
            r == !not_guessed(w@, self.history()),
    {
        let n = self.guesses.len();
        for j in 0..n
            invariant
                n == self.guesses@.len(),
                forall|k: int| 0 <= k < j ==> (#[trigger] self.history()[k]).0 != w@,
            decreases n - j,
        {
            proof {
                assert(self.history()[j as int] == (self.guesses@[j as int].guess@, self.guesses@[
                    j as int].result));
            }
            if vec_eq(&self.guesses[j].guess, w) {
                proof {
                    assert(self.history()[j as int].0 == w@);
                }
                return true;
            }
        }
        false
    }

    /// How many candidates would not yield the feedback `outcome` when
    /// compared against the probe `guess`.
    fn count_mismatching(&self, guess: &Vec<char>, outcome: PbfStats) -> (r: usize)
        requires
            self.wf(),
            guess@.len() == self.length(),
        ensures
            r as int == count_mismatch(self.candidates(), guess@, outcome),
            r <= self.candidates().len(),
    {
        proof {
            self.lemma_candidate_lengths();
        }
        let ghost cands = self.candidates();
        let n = self.available_guesses.len();
        let mut c: usize = 0;
        for i in 0..n
            invariant
                n == self.available_guesses@.len(),
                cands == secret_views(self.available_guesses@),
                1 <= self.guess_length <= i32::MAX,
                guess@.len() == self.length(),
                forall|k: int| 0 <= k < n ==> (#[trigger] cands[k]).len() == self.length(),
                c <= i,
                c as int == count_mismatch(cands.take(i as int), guess@, outcome),
            decreases n - i,
        {
            proof {
                assert(self.available_guesses@[i as int]@ == cands[i as int]);
            }
            let fb = self.available_guesses[i].compare(guess);
            if fb != outcome {
                c = c + 1;
            }
            proof {
                let ci = cands.take(i + 1);
                assert(ci.drop_last() =~= cands.take(i as int));
                assert(ci.last() == cands[i as int]);
            }
        }
        proof {
            assert(cands.take(n as int) =~= cands);
        }
        c
    }

    /// The minimax score of a probing guess over the cached outcome space.
    fn score_guess(&self, guess: &Vec<char>) -> (r: usize)
        requires
            self.wf(),
            guess@.len() == self.length(),
        ensures
            r as int == probe_score(self.candidates(), guess@, self.guess_length as int),
    {
        let ghost li = self.guess_length as int;
        let ghost os = all_outcomes(li);
        let ghost cands = self.candidates();
        proof {
            crate::feedback::lemma_all_outcomes_nonempty(li);
        }
        let m = self.cached_potential_outcomes.len();
        let mut best = self.count_mismatching(guess, self.cached_potential_outcomes[0]);
        proof {
            let o1 = os.take(1);
            assert(o1.len() == 1);
            assert(o1[0] == os[0]);
            assert(best as int == min_mismatch(o1, cands, guess@));
        }
        for i in 1..m
            invariant
                self.wf(),
                guess@.len() == self.length(),
                li == self.guess_length as int,
                os == all_outcomes(li),
                cands == self.candidates(),
                m == self.cached_potential_outcomes@.len(),
                m == os.len(),
                1 <= i <= m,
                best as int == min_mismatch(os.take(i as int), cands, guess@),
            decreases m - i,
        {
            let c = self.count_mismatching(guess, self.cached_potential_outcomes[i]);
            if c < best {
                best = c;
            }
            proof {
                let oi = os.take(i + 1);
                assert(oi.drop_last() =~= os.take(i as int));
                assert(oi.last() == os[i as int]);
            }
        }
        proof {
            assert(os.take(m as int) =~= os);
        }
        best
    }

    /// Appends a guess to the history and filters the candidate set in
    /// place: a candidate survives only if it reproduces the recorded
    /// feedback of every guess recorded so far. The candidate set never
    /// grows, and it may become empty — a legitimate terminal state
    /// signalling contradictory input, observable via `candidate_count`.
    pub fn add_guess(&mut self, guess: Guess)
        requires
            old(self).wf(),
            guess.guess@.len() == old(self).length(),
        ensures
            final(self).wf(),
            final(self).alphabet() == old(self).alphabet(),
            final(self).length() == old(self).length(),
            final(self).history() == old(self).history().push((guess.guess@, guess.result)),
            final(self).candidates() == sift(
                old(self).candidates(),
                seq![(guess.guess@, guess.result)],
            ),
            final(self).candidates().len() <= old(self).candidates().len(),
    {
        let ghost gpair = (guess.guess@, guess.result);
        let ghost old_h = self.history();
        let ghost old_cands = self.candidates();
        let ghost full = all_words(self.alphabet(), self.length());
        proof {
            self.lemma_candidate_lengths();
        }
        self.guesses.push(guess);
        let ghost newh = self.history();
        proof {
            assert(newh =~= old_h.push(gpair));
        }
        let mut kept: Vec<Secret> = Vec::new();
        proof {
            assert(secret_views(kept@) =~= sift(old_cands.take(0), newh));
        }
        let n = self.available_guesses.len();
        for i in 0..n
            invariant
                n == self.available_guesses@.len(),
                1 <= self.guess_length <= i32::MAX,
                self.history() == newh,
                newh == old_h.push(gpair),
                old_cands == secret_views(self.available_guesses@),
                forall|j: int|
                    0 <= j < newh.len() ==> (#[trigger] newh[j]).0.len() == self.length(),
                forall|k: int|
                    0 <= k < n ==> (#[trigger] old_cands[k]).len() == self.length(),
                secret_views(kept@) == sift(old_cands.take(i as int), newh),
            decreases n - i,
        {
            proof {
                assert(self.available_guesses@[i as int]@ == old_cands[i as int]);
            }
            let keep = self.matches_history(&self.available_guesses[i]);
            if keep {
                let s = self.available_guesses[i].duplicate();
                let ghost pre = kept@;
                kept.push(s);
                proof {
                    lemma_secret_views_push(pre, s);
                }
            }
            proof {
                let ci = old_cands.take(i + 1);
                assert(ci.drop_last() =~= old_cands.take(i as int));
                assert(ci.last() == old_cands[i as int]);
            }
        }
        proof {
            assert(old_cands.take(n as int) =~= old_cands);
        }
        self.available_guesses = kept;
        proof {
            // The exec filter checked the whole extended history; on words
            // already consistent with the old history that is the same test
            // as checking the new guess alone.
            assert forall|k: int| 0 <= k < old_cands.len() implies (consistent_with(
                #[trigger] old_cands[k],
                newh,
            ) <==> consistent_with(old_cands[k], seq![gpair])) by {
                let x = old_cands[k];
                assert(old_cands.contains(x));
                lemma_sift_membership(full, old_h, x);
                assert(consistent_with(x, old_h));
                assert(seq![gpair][0] == gpair);
                assert(newh[old_h.len() as int] == gpair);
                assert forall|j: int| 0 <= j < old_h.len() implies #[trigger] newh[j]
                    == old_h[j] by {}
                if consistent_with(x, newh) {
                    assert(spec_compare(x, gpair.0) == gpair.1);
                    assert(consistent_with(x, seq![gpair]));
                }
                if consistent_with(x, seq![gpair]) {
                    assert(spec_compare(x, gpair.0) == gpair.1);
                    assert forall|j: int| 0 <= j < newh.len() implies spec_compare(
                        x,
                        (#[trigger] newh[j]).0,
                    ) == newh[j].1 by {
                        if j < old_h.len() {
                            assert(newh[j] == old_h[j]);
                        } else {
                            assert(newh[j] == gpair);
                        }
                    }
                }
            }
            lemma_sift_agree(old_cands, newh, seq![gpair]);
            lemma_sift_extend(full, old_h, gpair);
            lemma_sift_len(old_cands, seq![gpair]);
        }
    }
}

/// The least mismatch count over a list of outcomes is a lower bound of
/// every entry's count and is attained by some entry.
proof fn lemma_min_mismatch_least(os: Seq<PbfStats>, cands: Seq<Seq<char>>, g: Seq<char>)
    requires
        os.len() >= 1,
    ensures
        forall|j: int|
            0 <= j < os.len() ==> min_mismatch(os, cands, g) <= count_mismatch(
                cands,
                g,
                #[trigger] os[j],
            ),
        exists|j: int|
            0 <= j < os.len() && min_mismatch(os, cands, g) == count_mismatch(
                cands,
                g,
                #[trigger] os[j],
            ),
    decreases os.len(),
{
    if os.len() == 1 {
        assert(min_mismatch(os, cands, g) == count_mismatch(cands, g, os[0]));
    } else {
        let prefix = os.drop_last();
        lemma_min_mismatch_least(prefix, cands, g);
        assert forall|j: int| 0 <= j < os.len() implies min_mismatch(os, cands, g)
            <= count_mismatch(cands, g, #[trigger] os[j]) by {
            if j < os.len() - 1 {
                assert(prefix[j] == os[j]);
            } else {
                assert(os[j] == os.last());
            }
        }
        let w = choose|j: int|
            0 <= j < prefix.len() && min_mismatch(prefix, cands, g) == count_mismatch(
                cands,
                g,
                #[trigger] prefix[j],
            );
        assert(os[w] == prefix[w]);
        assert(os[os.len() - 1] == os.last());
        if count_mismatch(cands, g, os.last()) < min_mismatch(prefix, cands, g) {
            assert(min_mismatch(os, cands, g) == count_mismatch(cands, g, os[os.len() - 1]));
        } else {
            assert(min_mismatch(os, cands, g) == count_mismatch(cands, g, os[w]));
        }
    }
}

/// Minimax law: the score of a probe is the least mismatch count over all
/// feedback values that are combinatorially possible for the length — it is
/// a lower bound for every such value and is attained by one of them.
pub proof fn lemma_probe_score_is_least(cands: Seq<Seq<char>>, g: Seq<char>, len: int)
    requires
        0 <= len <= i32::MAX,
    ensures
        forall|fb: PbfStats|
            valid_feedback(fb, len) ==> probe_score(cands, g, len) <= count_mismatch(
                cands,
                g,
                fb,
            ),
        exists|fb: PbfStats|
            valid_feedback(fb, len) && probe_score(cands, g, len) == count_mismatch(cands, g, fb),
{
    let os = all_outcomes(len);
    crate::feedback::lemma_all_outcomes_nonempty(len);
    crate::feedback::lemma_all_outcomes_membership(len);
    lemma_min_mismatch_least(os, cands, g);
    assert forall|fb: PbfStats| valid_feedback(fb, len) implies probe_score(cands, g, len)
        <= count_mismatch(cands, g, fb) by {
        assert(os.contains(fb));
        let j = choose|j: int| 0 <= j < os.len() && os[j] == fb;
    }
    let j = choose|j: int|
        0 <= j < os.len() && min_mismatch(os, cands, g) == count_mismatch(
            cands,
            g,
            #[trigger] os[j],
        );
    assert(os.contains(os[j]));
    assert(valid_feedback(os[j], len));
}

/// Consistency law: every surviving candidate, compared against every
/// recorded guess, reproduces exactly that guess's recorded feedback.
pub proof fn lemma_candidates_consistent(st: &GuessState)
    requires
        st.wf(),
    ensures
        forall|k: int, j: int|
            0 <= k < st.candidates().len() && 0 <= j < st.history().len() ==> spec_compare(
                #[trigger] st.candidates()[k],
                (#[trigger] st.history()[j]).0,
            ) == st.history()[j].1,
{
    let cands = st.candidates();
    let full = all_words(st.alphabet(), st.length());
    assert forall|k: int, j: int|
        0 <= k < cands.len() && 0 <= j < st.history().len() implies spec_compare(
        #[trigger] cands[k],
        (#[trigger] st.history()[j]).0,
    ) == st.history()[j].1 by {
        assert(cands.contains(cands[k]));
        lemma_sift_membership(full, st.history(), cands[k]);
        assert(consistent_with(cands[k], st.history()));
    }
}

/// Completeness law: a word of the right length, drawn from the alphabet
/// and consistent with every recorded guess, is among the candidates. In a
/// game whose feedback was reported truthfully, the true secret therefore
/// always survives.
pub proof fn lemma_secret_survives(st: &GuessState, secret: Seq<char>)
    requires
        st.wf(),
        secret.len() == st.length(),
        forall|i: int| 0 <= i < secret.len() ==> st.alphabet().contains(#[trigger] secret[i]),
        consistent_with(secret, st.history()),
    ensures
        st.candidates().contains(secret),
{
    lemma_all_words_membership(st.alphabet(), st.length(), secret);
    lemma_sift_membership(all_words(st.alphabet(), st.length()), st.history(), secret);
}

/// Certainty law: once the candidate set has exactly one member and the
/// true secret is still consistent with the history, that member is the
/// secret, and `next_guess` answers it without further search.
pub proof fn lemma_certainty(st: &GuessState, secret: Seq<char>)
    requires
        st.wf(),
        secret.len() == st.length(),
        forall|i: int| 0 <= i < secret.len() ==> st.alphabet().contains(#[trigger] secret[i]),
        consistent_with(secret, st.history()),
        st.candidates().len() == 1,
    ensures
        st.candidates()[0] == secret,
        spec_next_guess(st.alphabet(), st.length(), st.history()) == Some(secret),
{
    lemma_secret_survives(st, secret);
    let i = choose|i: int| 0 <= i < st.candidates().len() && st.candidates()[i] == secret;
}

/// Determinism law: two well-formed solvers over the same alphabet, length
/// and history hold the same candidates, and `next_guess` — whose answer is
/// pinned to `spec_next_guess` — answers the same for both.
pub proof fn lemma_next_guess_deterministic(a: &GuessState, b: &GuessState)
    requires
        a.wf(),
        b.wf(),
        a.alphabet() == b.alphabet(),
        a.length() == b.length(),
        a.history() == b.history(),
    ensures
        a.candidates() == b.candidates(),
        spec_next_guess(a.alphabet(), a.length(), a.history()) == spec_next_guess(
            b.alphabet(),
            b.length(),
            b.history(),
        ),
{
}

} // verus!
