//! Prefix beam search over the frames of a line.
//!
//! Each frame gives every symbol a score; one symbol is the blank. A
//! hypothesis is a prefix of symbols with two scores: that of the paths that
//! end in the blank, and that of the other paths. The scores are the caller's,
//! who adds, multiplies and ranks them; a better score has a lower rank.

use vstd::prelude::*;

use crate::groups;
use crate::measure;
use crate::ordering;
use crate::ordering::Ordinal;

verus! {

/// The ordinal of 0.001: symbols that are no more probable are not tried.
pub const LEAST_PROBABILITY: Ordinal = 0x3A83_126F;

/// Hypotheses kept after each frame.
pub const BEAM_WIDTH: usize = 25;

/// Symbols tried in each frame.
pub const MAX_SYMBOLS: usize = 40;

/// A prefix with the score of its paths that end in the blank, and of its
/// other paths.
#[verifier::ext_equal]
pub struct Hypothesis<S> {
    pub prefix: Seq<usize>,
    pub blank: S,
    pub other: S,
}

/// How scores are added, multiplied and ranked, the score of no path, and the
/// score of the empty path.
#[verifier::reject_recursive_types(S)]
pub struct Scoring<S> {
    pub plus: spec_fn(S, S) -> S,
    pub times: spec_fn(S, S) -> S,
    pub rank: spec_fn(S) -> i64,
    pub none: S,
    pub one: S,
}

/// The position of `prefix` in `beams` from `p` on, or the end.
pub open spec fn position<S>(beams: Seq<Hypothesis<S>>, prefix: Seq<usize>, p: int) -> int
    decreases beams.len() - p,
{
    if p >= beams.len() || beams[p].prefix == prefix {
        p
    } else {
        position(beams, prefix, p + 1)
    }
}

impl<S> Scoring<S> {
    /// The score of all paths of a hypothesis.
    pub open spec fn total(self, h: Hypothesis<S>) -> S {
        (self.plus)(h.blank, h.other)
    }

    /// The hypothesis after more paths have been added to it.
    pub open spec fn raised(self, h: Hypothesis<S>, on_blank: bool, amount: S) -> Hypothesis<S> {
        if on_blank {
            Hypothesis { blank: (self.plus)(h.blank, amount), ..h }
        } else {
            Hypothesis { other: (self.plus)(h.other, amount), ..h }
        }
    }

    /// The hypotheses after more paths to `prefix` have been added.
    pub open spec fn contributed(
        self,
        beams: Seq<Hypothesis<S>>,
        prefix: Seq<usize>,
        on_blank: bool,
        amount: S,
    ) -> Seq<Hypothesis<S>> {
        let at = position(beams, prefix, 0);
        if at < beams.len() {
            beams.update(at, self.raised(beams[at], on_blank, amount))
        } else {
            beams.push(self.raised(Hypothesis { prefix, blank: self.none, other: self.none }, on_blank, amount))
        }
    }

    /// After `h` has been extended by symbol `c`. The last symbol once more is
    /// a new symbol only after a blank; else it is the same one held.
    pub open spec fn extended(
        self,
        beams: Seq<Hypothesis<S>>,
        h: Hypothesis<S>,
        c: usize,
        score: S,
    ) -> Seq<Hypothesis<S>> {
        if h.prefix.len() > 0 && h.prefix.last() == c {
            let held = self.contributed(beams, h.prefix, false, (self.times)(h.other, score));
            self.contributed(held, h.prefix.push(c), false, (self.times)(h.blank, score))
        } else {
            self.contributed(beams, h.prefix.push(c), false, (self.times)(self.total(h), score))
        }
    }

    /// After `h` has been continued by the blank and by the first `k` symbols.
    pub open spec fn continued(
        self,
        beams: Seq<Hypothesis<S>>,
        h: Hypothesis<S>,
        scores: Seq<S>,
        blank: usize,
        symbols: Seq<usize>,
        k: int,
    ) -> Seq<Hypothesis<S>>
        decreases k,
    {
        if k <= 0 {
            self.contributed(beams, h.prefix, true, (self.times)(self.total(h), scores[blank as int]))
        } else {
            self.extended(
                self.continued(beams, h, scores, blank, symbols, k - 1),
                h,
                symbols[k - 1],
                scores[symbols[k - 1] as int],
            )
        }
    }

    /// After the first `k` hypotheses have been continued.
    pub open spec fn all_continued(
        self,
        from: Seq<Hypothesis<S>>,
        scores: Seq<S>,
        blank: usize,
        symbols: Seq<usize>,
        k: int,
    ) -> Seq<Hypothesis<S>>
        decreases k,
    {
        if k <= 0 {
            Seq::empty()
        } else {
            self.continued(
                self.all_continued(from, scores, blank, symbols, k - 1),
                from[k - 1],
                scores,
                blank,
                symbols,
                symbols.len() as int,
            )
        }
    }

    /// The symbols below `k`, without the blank, that rank better than `limit`.
    pub open spec fn candidates(self, scores: Seq<S>, blank: usize, limit: i64, k: int) -> Seq<usize>
        decreases k,
    {
        if k <= 0 {
            Seq::empty()
        } else if k - 1 != blank && (self.rank)(scores[k - 1]) < limit {
            self.candidates(scores, blank, limit, k - 1).push((k - 1) as usize)
        } else {
            self.candidates(scores, blank, limit, k - 1)
        }
    }

    /// The symbols tried in a frame: the best candidates, best first.
    pub open spec fn symbols(self, scores: Seq<S>, blank: usize, limit: i64) -> Seq<usize> {
        let found = self.candidates(scores, blank, limit, scores.len() as int);
        let ranks = Seq::new(found.len(), |p: int| (self.rank)(scores[found[p] as int]));
        best_of(found, ranks, MAX_SYMBOLS as int)
    }

    /// The best hypotheses, best first.
    pub open spec fn pruned(self, beams: Seq<Hypothesis<S>>) -> Seq<Hypothesis<S>> {
        best_of(beams, Seq::new(beams.len(), |p: int| (self.rank)(self.total(beams[p]))), BEAM_WIDTH as int)
    }

    /// The hypotheses after one more frame.
    pub open spec fn step(self, beams: Seq<Hypothesis<S>>, scores: Seq<S>, blank: usize, limit: i64) -> Seq<
        Hypothesis<S>,
    > {
        self.pruned(
            self.all_continued(beams, scores, blank, self.symbols(scores, blank, limit), beams.len() as int),
        )
    }

    /// The hypotheses after the first `k` frames.
    pub open spec fn beams_after(self, frames: Seq<Seq<S>>, blank: usize, limit: i64, k: int) -> Seq<Hypothesis<S>>
        decreases k,
    {
        if k <= 0 {
            seq![Hypothesis { prefix: Seq::empty(), blank: self.one, other: self.none }]
        } else {
            self.step(self.beams_after(frames, blank, limit, k - 1), frames[k - 1], blank, limit)
        }
    }
}

/// The first `most` items when items are put in ascending order of their ranks.
pub open spec fn best_of<T>(items: Seq<T>, ranks: Seq<i64>, most: int) -> Seq<T> {
    let order = ordering::sorted_positions(ranks);
    Seq::new(
        (if items.len() < most {
            items.len() as int
        } else {
            most
        }) as nat,
        |p: int| items[order[p] as int],
    )
}

/// Scores may always be added, multiplied and ranked.
pub open spec fn scoring_callable<S, P: Fn(S, S) -> S, T: Fn(S, S) -> S, R: Fn(S) -> i64>(plus: P, times: T, rank: R) -> bool {
    &&& forall|a: S, b: S| #[trigger] call_requires(plus, (a, b))
    &&& forall|a: S, b: S| #[trigger] call_requires(times, (a, b))
    &&& forall|a: S| #[trigger] call_requires(rank, (a,))
}

/// The closures compute as `scoring` says.
pub open spec fn computes<S, P: Fn(S, S) -> S, T: Fn(S, S) -> S, R: Fn(S) -> i64>(
    plus: P,
    times: T,
    rank: R,
    none: S,
    one: S,
    scoring: Scoring<S>,
) -> bool {
    &&& forall|a: S, b: S, r: S| #[trigger] call_ensures(plus, (a, b), r) ==> r == (scoring.plus)(a, b)
    &&& forall|a: S, b: S, r: S| #[trigger] call_ensures(times, (a, b), r) ==> r == (scoring.times)(a, b)
    &&& forall|a: S, r: i64| #[trigger] call_ensures(rank, (a,), r) ==> r == (scoring.rank)(a)
    &&& scoring.none == none
    &&& scoring.one == one
}

/// A hypothesis in execution.
pub struct Beam<S> {
    pub prefix: Vec<usize>,
    pub blank: S,
    pub other: S,
}

impl<S> Beam<S> {
    pub open spec fn model(self) -> Hypothesis<S> {
        Hypothesis { prefix: self.prefix@, blank: self.blank, other: self.other }
    }
}

/// The hypotheses that `beams` hold.
pub open spec fn models<S>(beams: Seq<Beam<S>>) -> Seq<Hypothesis<S>> {
    Seq::new(beams.len(), |p: int| beams[p].model())
}

/// The frames as sequences.
pub open spec fn frames_of<S>(frames: Seq<Vec<S>>) -> Seq<Seq<S>> {
    Seq::new(frames.len(), |p: int| frames[p]@)
}

fn same_prefix(a: &Vec<usize>, b: &Vec<usize>) -> (same: bool)
    ensures
        same == (a@ == b@),
{
    if a.len() != b.len() {
        return false;
    }
    let mut k: usize = 0;
    while k < a.len()
        invariant
            k <= a.len(),
            a.len() == b.len(),
            forall|i: int| 0 <= i < k ==> a[i] == b[i],
        decreases a.len() - k,
    {
        if a[k] != b[k] {
            return false;
        }
        k = k + 1;
    }
    assert(a@ =~= b@);
    true
}

fn contribute<S: Copy, P: Fn(S, S) -> S, T: Fn(S, S) -> S, R: Fn(S) -> i64>(
    beams: &mut Vec<Beam<S>>,
    prefix: Vec<usize>,
    on_blank: bool,
    amount: S,
    none: S,
    one: S,
    plus: &P,
    times: &T,
    rank: &R,
)
    requires
        scoring_callable(*plus, *times, *rank),
    ensures
        forall|s: Scoring<S>| #[trigger]
            computes(*plus, *times, *rank, none, one, s) ==> models(final(beams)@) == s.contributed(
                models(old(beams)@),
                prefix@,
                on_blank,
                amount,
            ),
{
    let ghost before = models(beams@);
    let mut at: usize = 0;
    while at < beams.len()
        invariant_except_break
            position(before, prefix@, 0) == position(before, prefix@, at as int),
        invariant
            at <= beams.len(),
            models(beams@) == before,
        ensures
            at == position(before, prefix@, 0),
        decreases beams.len() - at,
    {
        assert(before[at as int].prefix == beams[at as int].prefix@);
        if same_prefix(&beams[at].prefix, &prefix) {
            break;
        }
        at = at + 1;
    }
    if at < beams.len() {
        assert(before[at as int] == beams[at as int].model());
        if on_blank {
            let raised = plus(beams[at].blank, amount);
            beams[at].blank = raised;
        } else {
            let raised = plus(beams[at].other, amount);
            beams[at].other = raised;
        }
        proof {
            assert forall|s: Scoring<S>| #[trigger] computes(*plus, *times, *rank, none, one, s) implies models(beams@)
                == s.contributed(before, prefix@, on_blank, amount) by {
                assert(models(beams@) =~= before.update(at as int, s.raised(before[at as int], on_blank, amount)));
            }
        }
    } else {
        let raised = plus(none, amount);
        let ghost key = prefix@;
        if on_blank {
            beams.push(Beam { prefix, blank: raised, other: none });
        } else {
            beams.push(Beam { prefix, blank: none, other: raised });
        }
        proof {
            assert forall|s: Scoring<S>| #[trigger] computes(*plus, *times, *rank, none, one, s) implies models(beams@)
                == s.contributed(before, key, on_blank, amount) by {
                assert(models(beams@) =~= before.push(
                    s.raised(Hypothesis { prefix: key, blank: s.none, other: s.none }, on_blank, amount),
                ));
            }
        }
    }
}

fn pushed(prefix: &Vec<usize>, c: usize) -> (longer: Vec<usize>)
    ensures
        longer@ == prefix@.push(c),
{
    let mut longer = groups::copy_group(prefix);
    longer.push(c);
    longer
}

/// Continues one hypothesis by the blank and by each symbol.
fn continue_one<S: Copy, P: Fn(S, S) -> S, T: Fn(S, S) -> S, R: Fn(S) -> i64>(
    beams: &mut Vec<Beam<S>>,
    h: &Beam<S>,
    scores: &Vec<S>,
    blank: usize,
    symbols: &Vec<usize>,
    none: S,
    one: S,
    plus: &P,
    times: &T,
    rank: &R,
)
    requires
        scoring_callable(*plus, *times, *rank),
        blank < scores.len(),
        forall|p: int| 0 <= p < symbols.len() ==> (#[trigger] symbols[p]) < scores.len(),
    ensures
        forall|s: Scoring<S>| #[trigger]
            computes(*plus, *times, *rank, none, one, s) ==> models(final(beams)@) == s.continued(
                models(old(beams)@),
                h.model(),
                scores@,
                blank,
                symbols@,
                symbols.len() as int,
            ),
{
    let ghost before = models(beams@);
    let total = plus(h.blank, h.other);
    let amount = times(total, scores[blank]);
    contribute(beams, groups::copy_group(&h.prefix), true, amount, none, one, plus, times, rank);
    let mut k: usize = 0;
    while k < symbols.len()
        invariant
            k <= symbols.len(),
            scoring_callable(*plus, *times, *rank),
            forall|p: int| 0 <= p < symbols.len() ==> (#[trigger] symbols[p]) < scores.len(),
            forall|s: Scoring<S>| #[trigger]
                computes(*plus, *times, *rank, none, one, s) ==> total == s.total(h.model()) && models(beams@)
                    == s.continued(before, h.model(), scores@, blank, symbols@, k as int),
        decreases symbols.len() - k,
    {
        let c = symbols[k];
        let score = scores[c];
        if h.prefix.len() > 0 && h.prefix[h.prefix.len() - 1] == c {
            let held = times(h.other, score);
            let renewed = times(h.blank, score);
            contribute(beams, groups::copy_group(&h.prefix), false, held, none, one, plus, times, rank);
            contribute(beams, pushed(&h.prefix, c), false, renewed, none, one, plus, times, rank);
        } else {
            let amount = times(total, score);
            contribute(beams, pushed(&h.prefix, c), false, amount, none, one, plus, times, rank);
        }
        k = k + 1;
    }
}

/// The symbols to try in a frame.
fn choose_symbols<S: Copy, P: Fn(S, S) -> S, T: Fn(S, S) -> S, R: Fn(S) -> i64>(
    scores: &Vec<S>,
    blank: usize,
    limit: i64,
    none: S,
    one: S,
    plus: &P,
    times: &T,
    rank: &R,
) -> (symbols: Vec<usize>)
    requires
        scoring_callable(*plus, *times, *rank),
    ensures
        forall|p: int| 0 <= p < symbols.len() ==> (#[trigger] symbols[p]) < scores.len(),
        forall|s: Scoring<S>| #[trigger]
            computes(*plus, *times, *rank, none, one, s) ==> symbols@ == s.symbols(scores@, blank, limit),
{
    let mut found: Vec<usize> = Vec::new();
    let mut ranks: Vec<i64> = Vec::new();
    let mut k: usize = 0;
    while k < scores.len()
        invariant
            k <= scores.len(),
            scoring_callable(*plus, *times, *rank),
            ranks.len() == found.len(),
            forall|p: int| 0 <= p < found.len() ==> (#[trigger] found[p]) < scores.len(),
            forall|s: Scoring<S>| #[trigger]
                computes(*plus, *times, *rank, none, one, s) ==> found@ == s.candidates(scores@, blank, limit, k as int)
                    && forall|p: int| 0 <= p < found.len() ==> #[trigger] ranks[p] == (s.rank)(scores[found[p] as int]),
        decreases scores.len() - k,
    {
        if k != blank {
            let r = rank(scores[k]);
            if r < limit {
                found.push(k);
                ranks.push(r);
            }
        }
        k = k + 1;
    }
    let order = ordering::stable_order(&ranks);
    let mut symbols: Vec<usize> = Vec::new();
    while symbols.len() < found.len() && symbols.len() < MAX_SYMBOLS
        invariant
            symbols.len() <= found.len(),
            symbols.len() <= MAX_SYMBOLS,
            order.len() == found.len(),
            forall|p: int| 0 <= p < order.len() ==> (#[trigger] order[p]) < found.len(),
            forall|p: int| 0 <= p < found.len() ==> (#[trigger] found[p]) < scores.len(),
            forall|p: int| 0 <= p < symbols.len() ==> #[trigger] symbols[p] == found[order[p] as int],
        decreases found.len() - symbols.len(),
    {
        let at = order[symbols.len()];
        symbols.push(found[at]);
    }
    proof {
        assert forall|s: Scoring<S>| #[trigger] computes(*plus, *times, *rank, none, one, s) implies symbols@
            == s.symbols(scores@, blank, limit) by {
            let spec_ranks = Seq::new(found@.len(), |p: int| (s.rank)(scores@[found@[p] as int]));
            assert(ranks@ =~= spec_ranks);
            assert(symbols@ =~= best_of(found@, spec_ranks, MAX_SYMBOLS as int));
        }
        assert forall|p: int| 0 <= p < symbols.len() implies (#[trigger] symbols[p]) < scores.len() by {
            assert(order[p] < found.len());
        }
    }
    symbols
}

/// Keeps the best hypotheses, best first.
fn prune<S: Copy, P: Fn(S, S) -> S, T: Fn(S, S) -> S, R: Fn(S) -> i64>(
    beams: &Vec<Beam<S>>,
    none: S,
    one: S,
    plus: &P,
    times: &T,
    rank: &R,
) -> (kept: Vec<Beam<S>>)
    requires
        scoring_callable(*plus, *times, *rank),
    ensures
        forall|s: Scoring<S>| #[trigger]
            computes(*plus, *times, *rank, none, one, s) ==> models(kept@) == s.pruned(models(beams@)),
{
    let mut ranks: Vec<i64> = Vec::new();
    while ranks.len() < beams.len()
        invariant
            ranks.len() <= beams.len(),
            scoring_callable(*plus, *times, *rank),
            forall|s: Scoring<S>| #[trigger]
                computes(*plus, *times, *rank, none, one, s) ==> forall|p: int|
                    0 <= p < ranks.len() ==> #[trigger] ranks[p] == (s.rank)(s.total(beams[p].model())),
        decreases beams.len() - ranks.len(),
    {
        let at: usize = ranks.len();
        let total = plus(beams[at].blank, beams[at].other);
        let r = rank(total);
        ranks.push(r);
    }
    let order = ordering::stable_order(&ranks);
    let mut kept: Vec<Beam<S>> = Vec::new();
    while kept.len() < beams.len() && kept.len() < BEAM_WIDTH
        invariant
            kept.len() <= beams.len(),
            kept.len() <= BEAM_WIDTH,
            order.len() == beams.len(),
            forall|p: int| 0 <= p < order.len() ==> (#[trigger] order[p]) < beams.len(),
            forall|p: int| 0 <= p < kept.len() ==> (#[trigger] kept[p]).model() == beams[order[p] as int].model(),
        decreases beams.len() - kept.len(),
    {
        let at = order[kept.len()];
        let copy = Beam { prefix: groups::copy_group(&beams[at].prefix), blank: beams[at].blank, other: beams[at].other };
        kept.push(copy);
    }
    proof {
        assert forall|s: Scoring<S>| #[trigger] computes(*plus, *times, *rank, none, one, s) implies models(kept@)
            == s.pruned(models(beams@)) by {
            let all = models(beams@);
            let spec_ranks = Seq::new(all.len(), |p: int| (s.rank)(s.total(all[p])));
            assert(ranks@ =~= spec_ranks);
            assert forall|p: int| 0 <= p < kept.len() implies models(kept@)[p] == all[order[p] as int] by {
                assert(order[p] < beams.len());
                assert(kept[p].model() == beams[order[p] as int].model());
            }
            assert(models(kept@) =~= best_of(all, spec_ranks, BEAM_WIDTH as int));
        }
    }
    kept
}

/// Searches the frames for the prefix with the best score.
///
/// The hypotheses that are left come best first. `none` is the score of no
/// path, `one` that of the empty path; only symbols that rank better than
/// `limit` are tried.
pub fn search_beams<S: Copy, P: Fn(S, S) -> S, T: Fn(S, S) -> S, R: Fn(S) -> i64>(
    frames: &Vec<Vec<S>>,
    blank: usize,
    limit: i64,
    none: S,
    one: S,
    plus: P,
    times: T,
    rank: R,
) -> (beams: Vec<Beam<S>>)
    requires
        scoring_callable(plus, times, rank),
        forall|t: int| 0 <= t < frames.len() ==> blank < (#[trigger] frames[t]).len(),
    ensures
        forall|s: Scoring<S>| #[trigger]
            computes(plus, times, rank, none, one, s) ==> models(beams@) == s.beams_after(
                frames_of(frames@),
                blank,
                limit,
                frames.len() as int,
            ),
{
    let mut beams: Vec<Beam<S>> = Vec::new();
    let empty: Vec<usize> = Vec::new();
    beams.push(Beam { prefix: empty, blank: one, other: none });
    proof {
        assert forall|s: Scoring<S>| #[trigger] computes(plus, times, rank, none, one, s) implies models(beams@)
            == s.beams_after(frames_of(frames@), blank, limit, 0) by {
            assert(beams[0].prefix@ =~= Seq::empty());
            assert(models(beams@) =~= s.beams_after(frames_of(frames@), blank, limit, 0));
        }
    }
    let mut t: usize = 0;
    while t < frames.len()
        invariant
            t <= frames.len(),
            scoring_callable(plus, times, rank),
            forall|u: int| 0 <= u < frames.len() ==> blank < (#[trigger] frames[u]).len(),
            forall|s: Scoring<S>| #[trigger]
                computes(plus, times, rank, none, one, s) ==> models(beams@) == s.beams_after(
                    frames_of(frames@),
                    blank,
                    limit,
                    t as int,
                ),
        decreases frames.len() - t,
    {
        let scores = &frames[t];
        let symbols = choose_symbols(scores, blank, limit, none, one, &plus, &times, &rank);
        let mut grown: Vec<Beam<S>> = Vec::new();
        let mut k: usize = 0;
        assert(models(grown@) =~= Seq::empty());
        while k < beams.len()
            invariant
                k <= beams.len(),
                scoring_callable(plus, times, rank),
                blank < scores.len(),
                forall|p: int| 0 <= p < symbols.len() ==> (#[trigger] symbols[p]) < scores.len(),
                forall|s: Scoring<S>| #[trigger]
                    computes(plus, times, rank, none, one, s) ==> models(grown@) == s.all_continued(
                        models(beams@),
                        scores@,
                        blank,
                        symbols@,
                        k as int,
                    ),
            decreases beams.len() - k,
        {
            continue_one(&mut grown, &beams[k], scores, blank, &symbols, none, one, &plus, &times, &rank);
            assert(models(beams@)[k as int] == beams[k as int].model());
            k = k + 1;
        }
        beams = prune(&grown, none, one, &plus, &times, &rank);
        assert(frames_of(frames@)[t as int] == scores@);
        t = t + 1;
    }
    beams
}

/// A prefix of at most `most` symbols, all below `classes` and none the blank.
pub open spec fn spelled(prefix: Seq<usize>, blank: usize, classes: nat, most: int) -> bool {
    &&& prefix.len() <= most
    &&& forall|p: int| 0 <= p < prefix.len() ==> (#[trigger] prefix[p]) < classes && prefix[p] != blank
}

/// No prefix stands for two hypotheses, and each is spelled from the symbols.
pub open spec fn sound<S>(beams: Seq<Hypothesis<S>>, blank: usize, classes: nat, most: int) -> bool {
    &&& forall|p: int, q: int| 0 <= p < q < beams.len() ==> (#[trigger] beams[p]).prefix != (#[trigger] beams[q]).prefix
    &&& forall|p: int| 0 <= p < beams.len() ==> spelled((#[trigger] beams[p]).prefix, blank, classes, most)
}

pub proof fn lemma_position<S>(beams: Seq<Hypothesis<S>>, prefix: Seq<usize>, p: int)
    requires
        0 <= p <= beams.len(),
    ensures
        p <= position(beams, prefix, p) <= beams.len(),
        forall|q: int| p <= q < position(beams, prefix, p) ==> (#[trigger] beams[q]).prefix != prefix,
        position(beams, prefix, p) < beams.len() ==> beams[position(beams, prefix, p)].prefix == prefix,
    decreases beams.len() - p,
{
    if p < beams.len() && beams[p].prefix != prefix {
        lemma_position(beams, prefix, p + 1);
    }
}

proof fn lemma_contributed_sound<S>(
    s: Scoring<S>,
    beams: Seq<Hypothesis<S>>,
    prefix: Seq<usize>,
    on_blank: bool,
    amount: S,
    blank: usize,
    classes: nat,
    most: int,
)
    requires
        sound(beams, blank, classes, most),
        spelled(prefix, blank, classes, most),
    ensures
        sound(s.contributed(beams, prefix, on_blank, amount), blank, classes, most),
        0 < s.contributed(beams, prefix, on_blank, amount).len() <= beams.len() + 1,
        beams.len() <= s.contributed(beams, prefix, on_blank, amount).len(),
{
    lemma_position(beams, prefix, 0);
}

pub proof fn lemma_continued_sound<S>(
    s: Scoring<S>,
    beams: Seq<Hypothesis<S>>,
    h: Hypothesis<S>,
    scores: Seq<S>,
    blank: usize,
    symbols: Seq<usize>,
    k: int,
    most: int,
)
    requires
        0 <= k <= symbols.len(),
        sound(beams, blank, scores.len(), most),
        spelled(h.prefix, blank, scores.len(), most - 1),
        forall|p: int| 0 <= p < symbols.len() ==> (#[trigger] symbols[p]) < scores.len() && symbols[p] != blank,
    ensures
        sound(s.continued(beams, h, scores, blank, symbols, k), blank, scores.len(), most),
        0 < s.continued(beams, h, scores, blank, symbols, k).len() <= beams.len() + 1 + 2 * k,
    decreases k,
{
    let n = scores.len();
    if k <= 0 {
        lemma_contributed_sound(
            s,
            beams,
            h.prefix,
            true,
            (s.times)(s.total(h), scores[blank as int]),
            blank,
            n,
            most,
        );
    } else {
        lemma_continued_sound(s, beams, h, scores, blank, symbols, k - 1, most);
        let before = s.continued(beams, h, scores, blank, symbols, k - 1);
        let c = symbols[k - 1];
        let score = scores[c as int];
        let longer = h.prefix.push(c);
        assert(spelled(longer, blank, n, most));
        if h.prefix.len() > 0 && h.prefix.last() == c {
            let held = s.contributed(before, h.prefix, false, (s.times)(h.other, score));
            lemma_contributed_sound(s, before, h.prefix, false, (s.times)(h.other, score), blank, n, most);
            lemma_contributed_sound(s, held, longer, false, (s.times)(h.blank, score), blank, n, most);
        } else {
            lemma_contributed_sound(s, before, longer, false, (s.times)(s.total(h), score), blank, n, most);
        }
    }
}

pub proof fn lemma_all_continued_sound<S>(
    s: Scoring<S>,
    from: Seq<Hypothesis<S>>,
    scores: Seq<S>,
    blank: usize,
    symbols: Seq<usize>,
    k: int,
    most: int,
)
    requires
        0 <= k <= from.len(),
        sound(from, blank, scores.len(), most - 1),
        symbols.len() <= MAX_SYMBOLS,
        forall|p: int| 0 <= p < symbols.len() ==> (#[trigger] symbols[p]) < scores.len() && symbols[p] != blank,
    ensures
        sound(s.all_continued(from, scores, blank, symbols, k), blank, scores.len(), most),
        s.all_continued(from, scores, blank, symbols, k).len() <= k * 81,
        k > 0 ==> s.all_continued(from, scores, blank, symbols, k).len() > 0,
    decreases k,
{
    if k > 0 {
        lemma_all_continued_sound(s, from, scores, blank, symbols, k - 1, most);
        lemma_continued_sound(
            s,
            s.all_continued(from, scores, blank, symbols, k - 1),
            from[k - 1],
            scores,
            blank,
            symbols,
            symbols.len() as int,
            most,
        );
    }
}

pub proof fn lemma_candidates<S>(s: Scoring<S>, scores: Seq<S>, blank: usize, limit: i64, k: int)
    requires
        0 <= k <= scores.len() <= usize::MAX,
    ensures
        s.candidates(scores, blank, limit, k).len() <= k,
        forall|p: int|
            0 <= p < s.candidates(scores, blank, limit, k).len() ==> (#[trigger] s.candidates(scores, blank, limit, k)[p])
                < k && s.candidates(scores, blank, limit, k)[p] != blank,
    decreases k,
{
    if k > 0 {
        lemma_candidates(s, scores, blank, limit, k - 1);
        let before = s.candidates(scores, blank, limit, k - 1);
        let after = s.candidates(scores, blank, limit, k);
        assert forall|p: int| 0 <= p < after.len() implies (#[trigger] after[p]) < k && after[p] != blank by {
            if p < before.len() {
                assert(after[p] == before[p]);
            }
        }
    }
}

pub proof fn lemma_symbols<S>(s: Scoring<S>, scores: Seq<S>, blank: usize, limit: i64)
    requires
        scores.len() <= usize::MAX,
    ensures
        s.symbols(scores, blank, limit).len() <= MAX_SYMBOLS,
        forall|p: int|
            0 <= p < s.symbols(scores, blank, limit).len() ==> (#[trigger] s.symbols(scores, blank, limit)[p])
                < scores.len() && s.symbols(scores, blank, limit)[p] != blank,
{
    lemma_candidates(s, scores, blank, limit, scores.len() as int);
    let found = s.candidates(scores, blank, limit, scores.len() as int);
    let ranks = Seq::new(found.len(), |p: int| (s.rank)(scores[found[p] as int]));
    ordering::law_stable_order_exists(ranks);
    let order = ordering::sorted_positions(ranks);
    let symbols = s.symbols(scores, blank, limit);
    assert forall|p: int| 0 <= p < symbols.len() implies (#[trigger] symbols[p]) < scores.len() && symbols[p] != blank by {
        assert(order[p] < found.len());
        assert(symbols[p] == found[order[p] as int]);
    }
}

/// After any number of frames there is at least one hypothesis and no more than
/// the beam is wide; no prefix stands for two of them; every prefix is spelled
/// from the frames' symbols, never the blank, and has no more symbols than
/// there were frames.
pub proof fn law_beams_are_sound<S>(s: Scoring<S>, frames: Seq<Seq<S>>, blank: usize, limit: i64, classes: nat, k: int)
    requires
        0 <= k <= frames.len(),
        classes <= usize::MAX,
        forall|t: int| 0 <= t < frames.len() ==> (#[trigger] frames[t]).len() == classes,
    ensures
        0 < s.beams_after(frames, blank, limit, k).len() <= BEAM_WIDTH,
        sound(s.beams_after(frames, blank, limit, k), blank, classes, k),
    decreases k,
{
    if k > 0 {
        law_beams_are_sound(s, frames, blank, limit, classes, k - 1);
        let from = s.beams_after(frames, blank, limit, k - 1);
        let scores = frames[k - 1];
        lemma_symbols(s, scores, blank, limit);
        let symbols = s.symbols(scores, blank, limit);
        lemma_all_continued_sound(s, from, scores, blank, symbols, from.len() as int, k);
        let grown = s.all_continued(from, scores, blank, symbols, from.len() as int);
        let ranks = Seq::new(grown.len(), |p: int| (s.rank)(s.total(grown[p])));
        ordering::law_stable_order_exists(ranks);
        let order = ordering::sorted_positions(ranks);
        let kept = s.pruned(grown);
        assert forall|p: int, q: int| 0 <= p < q < kept.len() implies (#[trigger] kept[p]).prefix != (#[trigger] kept[q]).prefix by {
            assert(order[p] != order[q]);
            assert(kept[p] == grown[order[p] as int] && kept[q] == grown[order[q] as int]);
        }
        assert forall|p: int| 0 <= p < kept.len() implies spelled((#[trigger] kept[p]).prefix, blank, classes, k) by {
            assert(order[p] < grown.len());
            assert(kept[p] == grown[order[p] as int]);
        }
    }
}

/// The first hypothesis ranks no worse than any other.
pub proof fn law_best_beam_is_first<S>(
    s: Scoring<S>,
    frames: Seq<Seq<S>>,
    blank: usize,
    limit: i64,
    classes: nat,
    p: int,
)
    requires
        classes <= usize::MAX,
        forall|t: int| 0 <= t < frames.len() ==> (#[trigger] frames[t]).len() == classes,
        0 <= p < s.beams_after(frames, blank, limit, frames.len() as int).len(),
    ensures
        ({
            let beams = s.beams_after(frames, blank, limit, frames.len() as int);
            (s.rank)(s.total(beams[0])) <= (s.rank)(s.total(beams[p]))
        }),
{
    let k = frames.len() as int;
    if k > 0 {
        law_beams_are_sound(s, frames, blank, limit, classes, k - 1);
        let from = s.beams_after(frames, blank, limit, k - 1);
        let scores = frames[k - 1];
        lemma_symbols(s, scores, blank, limit);
        let symbols = s.symbols(scores, blank, limit);
        lemma_all_continued_sound(s, from, scores, blank, symbols, from.len() as int, k);
        let grown = s.all_continued(from, scores, blank, symbols, from.len() as int);
        let ranks = Seq::new(grown.len(), |q: int| (s.rank)(s.total(grown[q])));
        ordering::law_stable_order_exists(ranks);
        let order = ordering::sorted_positions(ranks);
        let kept = s.pruned(grown);
        assert(kept[0] == grown[order[0] as int] && kept[p] == grown[order[p] as int]);
        assert(order[0] < grown.len() && order[p] < grown.len());
        if p > 0 {
            assert(ordering::comes_before(ranks, order[0] as int, order[p] as int));
        }
        assert(ranks[order[0] as int] == (s.rank)(s.total(kept[0])));
        assert(ranks[order[p] as int] == (s.rank)(s.total(kept[p])));
    }
}

/// Symbols of a probability of one thousandth or less are not tried.
pub proof fn law_least_probability()
    ensures
        measure::is_nearest(LEAST_PROBABILITY, 1, 1000),
{
    vstd::arithmetic::power2::lemma2_to64();
    vstd::arithmetic::power2::lemma2_to64_rest();
}

} // verus!
