//! The paths through the frames of a line, and what the beam search makes of them.
//!
//! A path names one symbol for each frame. It reads as the text that is left when
//! a symbol that is held over several frames counts once and blanks count not at
//! all.

use vstd::prelude::*;

use crate::beam;
use crate::beam::{Hypothesis, Scoring};
use crate::ordering;

verus! {

/// What a path reads as.
pub open spec fn collapsed(path: Seq<usize>, blank: usize) -> Seq<usize>
    decreases path.len(),
{
    if path.len() == 0 {
        Seq::empty()
    } else {
        let before = collapsed(path.drop_last(), blank);
        let c = path.last();
        if c == blank || path.len() >= 2 && path[path.len() - 2] == c {
            before
        } else {
            before.push(c)
        }
    }
}

/// A path ends in the blank, or has not begun.
pub open spec fn ends_blank(path: Seq<usize>, blank: usize) -> bool {
    path.len() == 0 || path.last() == blank
}

/// The score of a path: the product of the scores of its symbols.
pub open spec fn weight<S>(s: Scoring<S>, frames: Seq<Seq<S>>, path: Seq<usize>) -> S
    decreases path.len(),
{
    if path.len() == 0 {
        s.one
    } else {
        (s.times)(weight(s, frames, path.drop_last()), frames[path.len() - 1][path.last() as int])
    }
}

/// The sum of `f` over the symbols below `m`.
pub open spec fn symbol_sum<S>(s: Scoring<S>, f: spec_fn(usize) -> S, m: int) -> S
    decreases m,
{
    if m <= 0 {
        s.none
    } else {
        (s.plus)(symbol_sum(s, f, m - 1), f((m - 1) as usize))
    }
}

/// The sum of `f` over all paths of `k` symbols below `classes`.
pub open spec fn path_sum<S>(s: Scoring<S>, f: spec_fn(Seq<usize>) -> S, classes: int, k: int) -> S
    decreases k,
{
    if k <= 0 {
        f(Seq::empty())
    } else {
        path_sum(s, |p: Seq<usize>| symbol_sum(s, |c: usize| f(p.push(c)), classes), classes, k - 1)
    }
}

/// The score of a path that reads as `text` and ends in the blank or not, as
/// `on_blank` says; no score of any other.
pub open spec fn counted<S>(
    s: Scoring<S>,
    frames: Seq<Seq<S>>,
    blank: usize,
    text: Seq<usize>,
    on_blank: bool,
) -> spec_fn(Seq<usize>) -> S {
    |p: Seq<usize>|
        if collapsed(p, blank) == text && ends_blank(p, blank) == on_blank {
            weight(s, frames, p)
        } else {
            s.none
        }
}

/// The score of all paths through the first `k` frames that read as `text` and end
/// in the blank or not, as `on_blank` says.
pub open spec fn text_score<S>(
    s: Scoring<S>,
    frames: Seq<Seq<S>>,
    blank: usize,
    classes: int,
    k: int,
    text: Seq<usize>,
    on_blank: bool,
) -> S {
    path_sum(s, counted(s, frames, blank, text, on_blank), classes, k)
}

/// Scores are added in any order, the score of no path changes no sum and undoes
/// every product, and products of sums are sums of products.
pub open spec fn is_exact<S>(s: Scoring<S>) -> bool {
    &&& forall|a: S, b: S| #[trigger] (s.plus)(a, b) == (s.plus)(b, a)
    &&& forall|a: S, b: S, c: S|
        #![trigger (s.plus)((s.plus)(a, b), c)]
        #![trigger (s.plus)(a, (s.plus)(b, c))]
        (s.plus)((s.plus)(a, b), c) == (s.plus)(a, (s.plus)(b, c))
    &&& forall|a: S| #[trigger] (s.plus)(s.none, a) == a
    &&& forall|a: S, b: S, c: S| #[trigger]
        (s.times)((s.plus)(a, b), c) == (s.plus)((s.times)(a, c), (s.times)(b, c))
    &&& forall|c: S| #[trigger] (s.times)(s.none, c) == s.none
    &&& forall|c: S| #[trigger] (s.times)(c, s.none) == s.none
}

proof fn lemma_collapsed_ends(path: Seq<usize>, blank: usize)
    requires
        path.len() > 0,
        path.last() != blank,
    ensures
        collapsed(path, blank).len() > 0,
        collapsed(path, blank).last() == path.last(),
    decreases path.len(),
{
    if path.len() >= 2 && path[path.len() - 2] == path.last() {
        assert(path.drop_last().last() == path.last());
        lemma_collapsed_ends(path.drop_last(), blank);
    }
}

/// A path reads as symbols that occur in it, and never as the blank.
pub proof fn lemma_collapsed_symbols(path: Seq<usize>, blank: usize, classes: int)
    requires
        forall|t: int| 0 <= t < path.len() ==> (#[trigger] path[t]) < classes,
    ensures
        forall|p: int|
            0 <= p < collapsed(path, blank).len() ==> (#[trigger] collapsed(path, blank)[p]) < classes && collapsed(
                path,
                blank,
            )[p] != blank,
    decreases path.len(),
{
    if path.len() > 0 {
        let fewer = path.drop_last();
        lemma_collapsed_symbols(fewer, blank, classes);
        let before = collapsed(fewer, blank);
        assert(path[path.len() - 1] < classes);
        assert forall|p: int| 0 <= p < collapsed(path, blank).len() implies (#[trigger] collapsed(path, blank)[p])
            < classes && collapsed(path, blank)[p] != blank by {
            if p < before.len() {
                assert(collapsed(path, blank)[p] == before[p]);
            }
        }
    }
}

proof fn lemma_collapsed_push(path: Seq<usize>, c: usize, blank: usize)
    ensures
        collapsed(path.push(c), blank) == if c == blank || path.len() > 0 && path.last() == c {
            collapsed(path, blank)
        } else {
            collapsed(path, blank).push(c)
        },
{
    assert(path.push(c).drop_last() =~= path);
    if path.len() > 0 {
        assert(path.push(c)[path.push(c).len() - 2] == path.last());
    }
}

proof fn lemma_weight_push<S>(s: Scoring<S>, frames: Seq<Seq<S>>, path: Seq<usize>, c: usize)
    ensures
        weight(s, frames, path.push(c)) == (s.times)(weight(s, frames, path), frames[path.len() as int][c as int]),
{
    assert(path.push(c).drop_last() =~= path);
}

proof fn lemma_symbol_sum_same<S>(s: Scoring<S>, f: spec_fn(usize) -> S, g: spec_fn(usize) -> S, m: int)
    requires
        m <= usize::MAX,
        forall|c: usize| c < m ==> #[trigger] f(c) == g(c),
    ensures
        symbol_sum(s, f, m) == symbol_sum(s, g, m),
    decreases m,
{
    if m > 0 {
        lemma_symbol_sum_same(s, f, g, m - 1);
        assert(f((m - 1) as usize) == g((m - 1) as usize));
    }
}

proof fn lemma_symbol_sum_single<S>(s: Scoring<S>, f: spec_fn(usize) -> S, m: int, d: usize)
    requires
        is_exact(s),
        m <= usize::MAX,
        forall|c: usize| c < m && c != d ==> #[trigger] f(c) == s.none,
    ensures
        symbol_sum(s, f, m) == if d < m {
            f(d)
        } else {
            s.none
        },
    decreases m,
{
    if m > 0 {
        lemma_symbol_sum_single(s, f, m - 1, d);
        let before = symbol_sum(s, f, m - 1);
        let last = f((m - 1) as usize);
        assert((s.plus)(before, last) == (s.plus)(last, before));
        assert((s.plus)(s.none, before) == before);
        assert((s.plus)(s.none, last) == last);
    }
}

proof fn lemma_symbol_sum_plus<S>(
    s: Scoring<S>,
    f: spec_fn(usize) -> S,
    g: spec_fn(usize) -> S,
    h: spec_fn(usize) -> S,
    m: int,
)
    requires
        is_exact(s),
        m <= usize::MAX,
        forall|c: usize| c < m ==> #[trigger] h(c) == (s.plus)(f(c), g(c)),
    ensures
        symbol_sum(s, h, m) == (s.plus)(symbol_sum(s, f, m), symbol_sum(s, g, m)),
    decreases m,
{
    if m <= 0 {
        assert((s.plus)(s.none, s.none) == s.none);
    } else {
        lemma_symbol_sum_plus(s, f, g, h, m - 1);
        let c = (m - 1) as usize;
        assert(h(c) == (s.plus)(f(c), g(c)));
        lemma_four_terms(s, symbol_sum(s, f, m - 1), symbol_sum(s, g, m - 1), f(c), g(c));
    }
}

proof fn lemma_four_terms<S>(s: Scoring<S>, a: S, b: S, c: S, d: S)
    requires
        is_exact(s),
    ensures
        (s.plus)((s.plus)(a, b), (s.plus)(c, d)) == (s.plus)((s.plus)(a, c), (s.plus)(b, d)),
{
    let p = s.plus;
    assert(p(p(a, b), p(c, d)) == p(a, p(b, p(c, d))));
    assert(p(p(b, c), d) == p(b, p(c, d)));
    assert(p(b, c) == p(c, b));
    assert(p(p(c, b), d) == p(c, p(b, d)));
    assert(p(p(a, c), p(b, d)) == p(a, p(c, p(b, d))));
}

proof fn lemma_symbol_sum_times<S>(s: Scoring<S>, f: spec_fn(usize) -> S, h: spec_fn(usize) -> S, factor: S, m: int)
    requires
        is_exact(s),
        m <= usize::MAX,
        forall|c: usize| c < m ==> #[trigger] h(c) == (s.times)(f(c), factor),
    ensures
        symbol_sum(s, h, m) == (s.times)(symbol_sum(s, f, m), factor),
    decreases m,
{
    if m > 0 {
        lemma_symbol_sum_times(s, f, h, factor, m - 1);
        let c = (m - 1) as usize;
        assert(h(c) == (s.times)(f(c), factor));
        assert((s.times)((s.plus)(symbol_sum(s, f, m - 1), f(c)), factor) == (s.plus)(
            (s.times)(symbol_sum(s, f, m - 1), factor),
            (s.times)(f(c), factor),
        ));
    } else {
        assert((s.times)(s.none, factor) == s.none);
    }
}

proof fn lemma_path_sum_same<S>(
    s: Scoring<S>,
    f: spec_fn(Seq<usize>) -> S,
    g: spec_fn(Seq<usize>) -> S,
    classes: int,
    k: int,
)
    requires
        classes <= usize::MAX,
        0 <= k,
        forall|p: Seq<usize>| p.len() == k ==> #[trigger] f(p) == g(p),
    ensures
        path_sum(s, f, classes, k) == path_sum(s, g, classes, k),
    decreases k,
{
    if k > 0 {
        let f2 = |p: Seq<usize>| symbol_sum(s, |c: usize| f(p.push(c)), classes);
        let g2 = |p: Seq<usize>| symbol_sum(s, |c: usize| g(p.push(c)), classes);
        assert forall|p: Seq<usize>| p.len() == k - 1 implies #[trigger] f2(p) == g2(p) by {
            let f1 = |c: usize| f(p.push(c));
            let g1 = |c: usize| g(p.push(c));
            assert forall|c: usize| c < classes implies #[trigger] f1(c) == g1(c) by {
                assert(p.push(c).len() == k);
            }
            lemma_symbol_sum_same(s, f1, g1, classes);
        }
        lemma_path_sum_same(s, f2, g2, classes, k - 1);
    } else {
        assert(Seq::<usize>::empty().len() == 0);
    }
}

proof fn lemma_path_sum_plus<S>(
    s: Scoring<S>,
    f: spec_fn(Seq<usize>) -> S,
    g: spec_fn(Seq<usize>) -> S,
    classes: int,
    k: int,
)
    requires
        is_exact(s),
        classes <= usize::MAX,
        0 <= k,
    ensures
        path_sum(s, |p: Seq<usize>| (s.plus)(f(p), g(p)), classes, k) == (s.plus)(
            path_sum(s, f, classes, k),
            path_sum(s, g, classes, k),
        ),
    decreases k,
{
    let h = |p: Seq<usize>| (s.plus)(f(p), g(p));
    if k > 0 {
        let f2 = |p: Seq<usize>| symbol_sum(s, |c: usize| f(p.push(c)), classes);
        let g2 = |p: Seq<usize>| symbol_sum(s, |c: usize| g(p.push(c)), classes);
        let h2 = |p: Seq<usize>| symbol_sum(s, |c: usize| h(p.push(c)), classes);
        let both = |p: Seq<usize>| (s.plus)(f2(p), g2(p));
        assert forall|p: Seq<usize>| p.len() == k - 1 implies #[trigger] h2(p) == both(p) by {
            lemma_symbol_sum_plus(
                s,
                |c: usize| f(p.push(c)),
                |c: usize| g(p.push(c)),
                |c: usize| h(p.push(c)),
                classes,
            );
        }
        lemma_path_sum_same(s, h2, both, classes, k - 1);
        lemma_path_sum_plus(s, f2, g2, classes, k - 1);
    }
}

proof fn lemma_path_sum_times<S>(s: Scoring<S>, f: spec_fn(Seq<usize>) -> S, factor: S, classes: int, k: int)
    requires
        is_exact(s),
        classes <= usize::MAX,
        0 <= k,
    ensures
        path_sum(s, |p: Seq<usize>| (s.times)(f(p), factor), classes, k) == (s.times)(
            path_sum(s, f, classes, k),
            factor,
        ),
    decreases k,
{
    let h = |p: Seq<usize>| (s.times)(f(p), factor);
    if k > 0 {
        let f2 = |p: Seq<usize>| symbol_sum(s, |c: usize| f(p.push(c)), classes);
        let h2 = |p: Seq<usize>| symbol_sum(s, |c: usize| h(p.push(c)), classes);
        let scaled = |p: Seq<usize>| (s.times)(f2(p), factor);
        assert forall|p: Seq<usize>| p.len() == k - 1 implies #[trigger] h2(p) == scaled(p) by {
            lemma_symbol_sum_times(s, |c: usize| f(p.push(c)), |c: usize| h(p.push(c)), factor, classes);
        }
        lemma_path_sum_same(s, h2, scaled, classes, k - 1);
        lemma_path_sum_times(s, f2, factor, classes, k - 1);
    }
}

proof fn lemma_path_sum_none<S>(s: Scoring<S>, f: spec_fn(Seq<usize>) -> S, classes: int, k: int)
    requires
        is_exact(s),
        classes <= usize::MAX,
        0 <= k,
        forall|p: Seq<usize>| p.len() == k ==> #[trigger] f(p) == s.none,
    ensures
        path_sum(s, f, classes, k) == s.none,
    decreases k,
{
    if k > 0 {
        let f2 = |p: Seq<usize>| symbol_sum(s, |c: usize| f(p.push(c)), classes);
        assert forall|p: Seq<usize>| p.len() == k - 1 implies #[trigger] f2(p) == s.none by {
            let f1 = |c: usize| f(p.push(c));
            assert forall|c: usize| c < classes && c != usize::MAX implies #[trigger] f1(c) == s.none by {
                assert(p.push(c).len() == k);
            }
            lemma_symbol_sum_single(s, f1, classes, usize::MAX);
        }
        lemma_path_sum_none(s, f2, classes, k - 1);
    } else {
        assert(Seq::<usize>::empty().len() == 0);
    }
}

/// The paths that end in the blank and read as `text`: those that read as `text`
/// one frame earlier, and then the blank.
proof fn lemma_text_score_on_blank<S>(
    s: Scoring<S>,
    frames: Seq<Seq<S>>,
    blank: usize,
    classes: int,
    k: int,
    text: Seq<usize>,
)
    requires
        is_exact(s),
        blank < classes <= usize::MAX,
        0 < k,
    ensures
        text_score(s, frames, blank, classes, k, text, true) == (s.times)(
            (s.plus)(
                text_score(s, frames, blank, classes, k - 1, text, true),
                text_score(s, frames, blank, classes, k - 1, text, false),
            ),
            frames[k - 1][blank as int],
        ),
{
    let f = counted(s, frames, blank, text, true);
    let fb = counted(s, frames, blank, text, true);
    let fo = counted(s, frames, blank, text, false);
    let factor = frames[k - 1][blank as int];
    let f2 = |p: Seq<usize>| symbol_sum(s, |c: usize| f(p.push(c)), classes);
    let both = |p: Seq<usize>| (s.plus)(fb(p), fo(p));
    let scaled = |p: Seq<usize>| (s.times)(both(p), factor);
    assert forall|p: Seq<usize>| p.len() == k - 1 implies #[trigger] f2(p) == scaled(p) by {
        let f1 = |c: usize| f(p.push(c));
        assert forall|c: usize| c < classes && c != blank implies #[trigger] f1(c) == s.none by {
            assert(p.push(c).last() == c);
        }
        lemma_symbol_sum_single(s, f1, classes, blank);
        lemma_collapsed_push(p, blank, blank);
        lemma_weight_push(s, frames, p, blank);
        assert(p.push(blank).last() == blank);
        let w = weight(s, frames, p);
        assert((s.plus)(s.none, w) == w);
        assert((s.plus)(w, s.none) == (s.plus)(s.none, w));
        assert((s.plus)(s.none, s.none) == s.none);
        assert((s.times)(s.none, factor) == s.none);
    }
    lemma_path_sum_same(s, f2, scaled, classes, k - 1);
    lemma_path_sum_times(s, both, factor, classes, k - 1);
    lemma_path_sum_plus(s, fb, fo, classes, k - 1);
}

/// The score of no path changes no sum and undoes every product.
spec fn is_neutral<S>(s: Scoring<S>) -> bool {
    &&& forall|a: S| #[trigger] (s.plus)(s.none, a) == a
    &&& forall|a: S| #[trigger] (s.plus)(a, s.none) == a
    &&& forall|a: S| #[trigger] (s.times)(s.none, a) == s.none
}

proof fn lemma_exact_is_neutral<S>(s: Scoring<S>)
    requires
        is_exact(s),
    ensures
        is_neutral(s),
{
    assert forall|a: S| #[trigger] (s.plus)(a, s.none) == a by {
        assert((s.plus)(a, s.none) == (s.plus)(s.none, a));
    }
}

proof fn lemma_last_symbol<S>(s: Scoring<S>, frames: Seq<Seq<S>>, blank: usize, text: Seq<usize>, p: Seq<usize>)
    requires
        is_neutral(s),
        text.len() > 0,
        text.last() != blank,
    ensures
        ({
            let rest = text.drop_last();
            let d = text.last();
            let factor = frames[p.len() as int][d as int];
            let f = counted(s, frames, blank, text, false);
            let rb = counted(s, frames, blank, rest, true);
            let ro = counted(s, frames, blank, rest, false);
            let fresh = if rest.len() > 0 && rest.last() == d {
                rb(p)
            } else {
                (s.plus)(rb(p), ro(p))
            };
            f(p.push(d)) == (s.plus)((s.times)(f(p), factor), (s.times)(fresh, factor))
        }),
{
    let rest = text.drop_last();
    let d = text.last();
    let same = rest.len() > 0 && rest.last() == d;
    lemma_collapsed_push(p, d, blank);
    lemma_weight_push(s, frames, p, d);
    assert(p.push(d).last() == d);
    if !ends_blank(p, blank) {
        lemma_collapsed_ends(p, blank);
    }
    if !(p.len() > 0 && p.last() == d) {
        assert(collapsed(p, blank).push(d) == text <==> collapsed(p, blank) == rest) by {
            assert(rest.push(d) =~= text);
            if collapsed(p, blank).push(d) == text {
                assert(collapsed(p, blank).push(d).drop_last() =~= collapsed(p, blank));
            }
        }
    }
    if collapsed(p, blank) == text {
        assert(collapsed(p, blank).last() == d);
        assert(collapsed(p, blank).len() == rest.len() + 1);
    }
}

/// The paths that do not end in the blank and read as `text`: the last symbol is
/// held once more, or it is new. It is new after the rest of the text, but where
/// the rest ends in the same symbol only after a blank.
proof fn lemma_text_score_on_symbol<S>(
    s: Scoring<S>,
    frames: Seq<Seq<S>>,
    blank: usize,
    classes: int,
    k: int,
    text: Seq<usize>,
)
    requires
        is_exact(s),
        blank < classes <= usize::MAX,
        0 < k,
        text.len() > 0,
        text.last() != blank,
        text.last() < classes,
    ensures
        ({
            let rest = text.drop_last();
            let d = text.last();
            let on_blank = text_score(s, frames, blank, classes, k - 1, rest, true);
            let on_symbol = text_score(s, frames, blank, classes, k - 1, rest, false);
            let fresh = if rest.len() > 0 && rest.last() == d {
                on_blank
            } else {
                (s.plus)(on_blank, on_symbol)
            };
            text_score(s, frames, blank, classes, k, text, false) == (s.plus)(
                (s.times)(text_score(s, frames, blank, classes, k - 1, text, false), frames[k - 1][d as int]),
                (s.times)(fresh, frames[k - 1][d as int]),
            )
        }),
{
    let rest = text.drop_last();
    let d = text.last();
    let same = rest.len() > 0 && rest.last() == d;
    let factor = frames[k - 1][d as int];
    let f = counted(s, frames, blank, text, false);
    let rb = counted(s, frames, blank, rest, true);
    let ro = counted(s, frames, blank, rest, false);
    let r_all = |p: Seq<usize>| (s.plus)(rb(p), ro(p));
    let fresh = if same {
        rb
    } else {
        r_all
    };
    let held_part = |p: Seq<usize>| (s.times)(f(p), factor);
    let fresh_part = |p: Seq<usize>| (s.times)(fresh(p), factor);
    let sum = |p: Seq<usize>| (s.plus)(held_part(p), fresh_part(p));
    let f2 = |p: Seq<usize>| symbol_sum(s, |c: usize| f(p.push(c)), classes);
    lemma_exact_is_neutral(s);
    assert forall|p: Seq<usize>| p.len() == k - 1 implies #[trigger] f2(p) == sum(p) by {
        let f1 = |c: usize| f(p.push(c));
        assert forall|c: usize| c < classes && c != d implies #[trigger] f1(c) == s.none by {
            assert(p.push(c).last() == c);
            if c != blank {
                lemma_collapsed_ends(p.push(c), blank);
            }
        }
        lemma_symbol_sum_single(s, f1, classes, d);
        lemma_last_symbol(s, frames, blank, text, p);
    }
    lemma_path_sum_same(s, f2, sum, classes, k - 1);
    lemma_path_sum_plus(s, held_part, fresh_part, classes, k - 1);
    lemma_path_sum_times(s, f, factor, classes, k - 1);
    lemma_path_sum_times(s, fresh, factor, classes, k - 1);
    lemma_path_sum_plus(s, rb, ro, classes, k - 1);
}

/// No path reads as a text that it cannot spell.
proof fn lemma_text_score_none<S>(
    s: Scoring<S>,
    frames: Seq<Seq<S>>,
    blank: usize,
    classes: int,
    k: int,
    text: Seq<usize>,
)
    requires
        is_exact(s),
        blank < classes <= usize::MAX,
        0 <= k,
        k == 0 || text.len() == 0 || text.last() == blank || text.last() >= classes,
    ensures
        text_score(s, frames, blank, classes, k, text, false) == s.none,
{
    let f = counted(s, frames, blank, text, false);
    if k == 0 {
        assert(f(Seq::empty()) == s.none);
    } else {
        let f2 = |p: Seq<usize>| symbol_sum(s, |c: usize| f(p.push(c)), classes);
        assert forall|p: Seq<usize>| p.len() == k - 1 implies #[trigger] f2(p) == s.none by {
            let f1 = |c: usize| f(p.push(c));
            assert forall|c: usize| c < classes && c != usize::MAX implies #[trigger] f1(c) == s.none by {
                assert(p.push(c).last() == c);
                if c != blank {
                    lemma_collapsed_ends(p.push(c), blank);
                }
            }
            lemma_symbol_sum_single(s, f1, classes, usize::MAX);
        }
        lemma_path_sum_none(s, f2, classes, k - 1);
    }
}

/// The score that `beams` hold for the paths to `text`.
spec fn held<S>(s: Scoring<S>, beams: Seq<Hypothesis<S>>, text: Seq<usize>, on_blank: bool) -> S {
    let at = beam::position(beams, text, 0);
    if at < beams.len() {
        if on_blank {
            beams[at].blank
        } else {
            beams[at].other
        }
    } else {
        s.none
    }
}

proof fn lemma_held_at<S>(s: Scoring<S>, beams: Seq<Hypothesis<S>>, p: int)
    requires
        0 <= p < beams.len(),
        forall|i: int, j: int| 0 <= i < j < beams.len() ==> (#[trigger] beams[i]).prefix != (#[trigger] beams[j]).prefix,
    ensures
        beam::position(beams, beams[p].prefix, 0) == p,
        held(s, beams, beams[p].prefix, true) == beams[p].blank,
        held(s, beams, beams[p].prefix, false) == beams[p].other,
{
    beam::lemma_position(beams, beams[p].prefix, 0);
    let at = beam::position(beams, beams[p].prefix, 0);
    if at < p {
        assert(beams[at].prefix != beams[p].prefix);
    }
}

proof fn lemma_held_nowhere<S>(s: Scoring<S>, beams: Seq<Hypothesis<S>>, text: Seq<usize>)
    requires
        forall|p: int| 0 <= p < beams.len() ==> (#[trigger] beams[p]).prefix != text,
    ensures
        beam::position(beams, text, 0) == beams.len(),
        held(s, beams, text, true) == s.none,
        held(s, beams, text, false) == s.none,
{
    beam::lemma_position(beams, text, 0);
}

proof fn lemma_contributed_held<S>(
    s: Scoring<S>,
    beams: Seq<Hypothesis<S>>,
    key: Seq<usize>,
    to_blank: bool,
    amount: S,
    text: Seq<usize>,
    on_blank: bool,
)
    ensures
        held(s, s.contributed(beams, key, to_blank, amount), text, on_blank) == if key == text && to_blank == on_blank {
            (s.plus)(held(s, beams, text, on_blank), amount)
        } else {
            held(s, beams, text, on_blank)
        },
{
    let after = s.contributed(beams, key, to_blank, amount);
    beam::lemma_position(beams, key, 0);
    beam::lemma_position(beams, text, 0);
    beam::lemma_position(after, text, 0);
    let a = beam::position(beams, text, 0);
    let b = beam::position(after, text, 0);
    assert forall|q: int| 0 <= q < beams.len() implies (#[trigger] after[q]).prefix == beams[q].prefix by {}
    if a < beams.len() {
        assert(after[a].prefix == text);
        if b < a {
            assert(beams[b].prefix == after[b].prefix);
        }
        assert(a == b);
        if key != text {
            assert(after[a] == beams[a]);
        }
    } else {
        if b < beams.len() {
            assert(beams[b].prefix == after[b].prefix);
        }
        if key == text {
            assert(after[beams.len() as int].prefix == text);
            assert(b == beams.len());
        } else if b < after.len() {
            assert(after[b].prefix == key);
        }
    }
}

/// What `h` adds to the paths to `text` that do not end in the blank, when `text`'s
/// last symbol comes with the given score.
spec fn gain<S>(s: Scoring<S>, h: Hypothesis<S>, text: Seq<usize>, score: S) -> Option<S> {
    if text.len() == 0 {
        None
    } else if h.prefix == text {
        Some((s.times)(h.other, score))
    } else if h.prefix == text.drop_last() {
        Some(
            (s.times)(
                if h.prefix.len() > 0 && h.prefix.last() == text.last() {
                    h.blank
                } else {
                    (s.plus)(h.blank, h.other)
                },
                score,
            ),
        )
    } else {
        None
    }
}

proof fn lemma_extended_held<S>(
    s: Scoring<S>,
    beams: Seq<Hypothesis<S>>,
    h: Hypothesis<S>,
    c: usize,
    score: S,
    text: Seq<usize>,
)
    ensures
        held(s, s.extended(beams, h, c, score), text, true) == held(s, beams, text, true),
        held(s, s.extended(beams, h, c, score), text, false) == (if text.len() > 0 && text.last() == c && gain(
            s,
            h,
            text,
            score,
        ) is Some {
            (s.plus)(held(s, beams, text, false), gain(s, h, text, score)->0)
        } else {
            held(s, beams, text, false)
        }),
{
    let longer = h.prefix.push(c);
    assert(longer.last() == c);
    assert(longer.drop_last() =~= h.prefix);
    assert(longer.len() != h.prefix.len());
    if text.len() > 0 && text.last() == c && h.prefix == text.drop_last() {
        assert(longer =~= text);
    }
    if h.prefix.len() > 0 && h.prefix.last() == c {
        let amount = (s.times)(h.other, score);
        let kept = s.contributed(beams, h.prefix, false, amount);
        lemma_contributed_held(s, beams, h.prefix, false, amount, text, true);
        lemma_contributed_held(s, beams, h.prefix, false, amount, text, false);
        lemma_contributed_held(s, kept, longer, false, (s.times)(h.blank, score), text, true);
        lemma_contributed_held(s, kept, longer, false, (s.times)(h.blank, score), text, false);
    } else {
        let amount = (s.times)(s.total(h), score);
        lemma_contributed_held(s, beams, longer, false, amount, text, true);
        lemma_contributed_held(s, beams, longer, false, amount, text, false);
    }
}

proof fn lemma_continued_held<S>(
    s: Scoring<S>,
    beams: Seq<Hypothesis<S>>,
    h: Hypothesis<S>,
    scores: Seq<S>,
    blank: usize,
    symbols: Seq<usize>,
    k: int,
    text: Seq<usize>,
)
    requires
        0 <= k <= symbols.len(),
        symbols.no_duplicates(),
    ensures
        held(s, s.continued(beams, h, scores, blank, symbols, k), text, true) == (if h.prefix == text {
            (s.plus)(held(s, beams, text, true), (s.times)((s.plus)(h.blank, h.other), scores[blank as int]))
        } else {
            held(s, beams, text, true)
        }),
        held(s, s.continued(beams, h, scores, blank, symbols, k), text, false) == (if text.len() > 0 && symbols.take(
            k,
        ).contains(text.last()) && gain(s, h, text, scores[text.last() as int]) is Some {
            (s.plus)(held(s, beams, text, false), gain(s, h, text, scores[text.last() as int])->0)
        } else {
            held(s, beams, text, false)
        }),
    decreases k,
{
    if k <= 0 {
        let amount = (s.times)(s.total(h), scores[blank as int]);
        lemma_contributed_held(s, beams, h.prefix, true, amount, text, true);
        lemma_contributed_held(s, beams, h.prefix, true, amount, text, false);
    } else {
        lemma_continued_held(s, beams, h, scores, blank, symbols, k - 1, text);
        let before = s.continued(beams, h, scores, blank, symbols, k - 1);
        let c = symbols[k - 1];
        lemma_extended_held(s, before, h, c, scores[c as int], text);
        let fewer = symbols.take(k - 1);
        let more = symbols.take(k);
        assert(more =~= fewer.push(c));
        assert(!fewer.contains(c)) by {
            if fewer.contains(c) {
                let q = choose|q: int| 0 <= q < fewer.len() && fewer[q] == c;
                assert(symbols[q] == symbols[k - 1]);
            }
        }
        if text.len() > 0 {
            let d = text.last();
            if fewer.contains(d) {
                let q = choose|q: int| 0 <= q < fewer.len() && fewer[q] == d;
                assert(more[q] == d);
            }
            if more.contains(d) && d != c {
                let q = choose|q: int| 0 <= q < more.len() && more[q] == d;
                assert(fewer[q] == d);
            }
            if d == c {
                assert(more[k - 1] == d);
            }
        }
    }
}

/// What the hypothesis for `source` among the first `n` adds to the paths to
/// `text`.
spec fn gain_from<S>(
    s: Scoring<S>,
    from: Seq<Hypothesis<S>>,
    n: int,
    source: Seq<usize>,
    text: Seq<usize>,
    score: S,
) -> S {
    let at = beam::position(from, source, 0);
    if at < n && at < from.len() {
        gain(s, from[at], text, score)->0
    } else {
        s.none
    }
}

proof fn lemma_all_continued_held<S>(
    s: Scoring<S>,
    from: Seq<Hypothesis<S>>,
    scores: Seq<S>,
    blank: usize,
    symbols: Seq<usize>,
    n: int,
    text: Seq<usize>,
)
    requires
        is_neutral(s),
        forall|x: S, y: S| #[trigger] (s.plus)(x, y) == (s.plus)(y, x),
        0 <= n <= from.len(),
        symbols.no_duplicates(),
        forall|i: int, j: int| 0 <= i < j < from.len() ==> (#[trigger] from[i]).prefix != (#[trigger] from[j]).prefix,
    ensures
        ({
            let grown = s.all_continued(from, scores, blank, symbols, n);
            let at = beam::position(from, text, 0);
            &&& held(s, grown, text, true) == (if at < n {
                (s.times)((s.plus)(from[at].blank, from[at].other), scores[blank as int])
            } else {
                s.none
            })
            &&& held(s, grown, text, false) == (if text.len() > 0 && symbols.contains(text.last()) {
                let score = scores[text.last() as int];
                (s.plus)(
                    gain_from(s, from, n, text, text, score),
                    gain_from(s, from, n, text.drop_last(), text, score),
                )
            } else {
                s.none
            })
        }),
    decreases n,
{
    let at = beam::position(from, text, 0);
    beam::lemma_position(from, text, 0);
    if n <= 0 {
        lemma_held_nowhere(s, Seq::<Hypothesis<S>>::empty(), text);
        assert((s.plus)(s.none, s.none) == s.none);
        if text.len() > 0 {
            beam::lemma_position(from, text.drop_last(), 0);
        }
    } else {
        lemma_all_continued_held(s, from, scores, blank, symbols, n - 1, text);
        let before = s.all_continued(from, scores, blank, symbols, n - 1);
        let h = from[n - 1];
        lemma_continued_held(s, before, h, scores, blank, symbols, symbols.len() as int, text);
        assert(symbols.take(symbols.len() as int) =~= symbols);
        lemma_held_at(s, from, n - 1);
        let total = (s.times)((s.plus)(h.blank, h.other), scores[blank as int]);
        assert((s.plus)(s.none, total) == total);
        if text.len() > 0 && symbols.contains(text.last()) {
            let rest = text.drop_last();
            let score = scores[text.last() as int];
            beam::lemma_position(from, rest, 0);
            assert(rest.len() != text.len());
            let a = gain_from(s, from, n - 1, text, text, score);
            let b = gain_from(s, from, n - 1, rest, text, score);
            if h.prefix == text {
                let more = gain(s, h, text, score)->0;
                assert(a == s.none);
                assert((s.plus)(s.none, b) == b);
                assert((s.plus)(b, more) == (s.plus)(more, b));
            } else if h.prefix == rest {
                let more = gain(s, h, text, score)->0;
                assert(b == s.none);
                assert((s.plus)(a, s.none) == (s.plus)(s.none, a));
                assert((s.plus)(s.none, a) == a);
            }
        }
    }
}

proof fn lemma_grown_held<S>(
    s: Scoring<S>,
    from: Seq<Hypothesis<S>>,
    scores: Seq<S>,
    blank: usize,
    symbols: Seq<usize>,
    text: Seq<usize>,
)
    requires
        is_exact(s),
        symbols.no_duplicates(),
        forall|i: int, j: int| 0 <= i < j < from.len() ==> (#[trigger] from[i]).prefix != (#[trigger] from[j]).prefix,
    ensures
        ({
            let grown = s.all_continued(from, scores, blank, symbols, from.len() as int);
            &&& held(s, grown, text, true) == (s.times)(
                (s.plus)(held(s, from, text, true), held(s, from, text, false)),
                scores[blank as int],
            )
            &&& held(s, grown, text, false) == (if text.len() > 0 && symbols.contains(text.last()) {
                let rest = text.drop_last();
                let score = scores[text.last() as int];
                (s.plus)(
                    (s.times)(held(s, from, text, false), score),
                    (s.times)(
                        if rest.len() > 0 && rest.last() == text.last() {
                            held(s, from, rest, true)
                        } else {
                            (s.plus)(held(s, from, rest, true), held(s, from, rest, false))
                        },
                        score,
                    ),
                )
            } else {
                s.none
            })
        }),
{
    lemma_exact_is_neutral(s);
    lemma_all_continued_held(s, from, scores, blank, symbols, from.len() as int, text);
    beam::lemma_position(from, text, 0);
    assert((s.plus)(s.none, s.none) == s.none);
    assert((s.times)(s.none, scores[blank as int]) == s.none);
    if text.len() > 0 {
        let rest = text.drop_last();
        beam::lemma_position(from, rest, 0);
        assert(rest.len() != text.len());
        assert((s.times)(s.none, scores[text.last() as int]) == s.none);
    }
}

/// A symbol that is tried in a frame: not the blank, and better than the limit.
pub open spec fn is_tried<S>(s: Scoring<S>, scores: Seq<S>, blank: usize, limit: i64, c: usize) -> bool {
    c < scores.len() && c != blank && (s.rank)(scores[c as int]) < limit
}

proof fn lemma_candidates_are_tried<S>(s: Scoring<S>, scores: Seq<S>, blank: usize, limit: i64, k: int)
    requires
        0 <= k <= scores.len() <= usize::MAX,
    ensures
        forall|c: usize| #[trigger]
            s.candidates(scores, blank, limit, k).contains(c) <==> c < k && is_tried(s, scores, blank, limit, c),
        s.candidates(scores, blank, limit, k).no_duplicates(),
    decreases k,
{
    if k > 0 {
        lemma_candidates_are_tried(s, scores, blank, limit, k - 1);
        let before = s.candidates(scores, blank, limit, k - 1);
        let after = s.candidates(scores, blank, limit, k);
        let last = (k - 1) as usize;
        if k - 1 != blank && (s.rank)(scores[k - 1]) < limit {
            assert(!before.contains(last));
            assert(after =~= before.push(last));
            assert forall|c: usize| #[trigger] after.contains(c) <==> c < k && is_tried(s, scores, blank, limit, c) by {
                if before.contains(c) {
                    let q = choose|q: int| 0 <= q < before.len() && before[q] == c;
                    assert(after[q] == c);
                }
                if c == last {
                    assert(after[after.len() - 1] == c);
                }
                if after.contains(c) && c != last {
                    let q = choose|q: int| 0 <= q < after.len() && after[q] == c;
                    assert(before[q] == c);
                }
            }
            assert forall|i: int, j: int| 0 <= i < after.len() && 0 <= j < after.len() && i != j implies after[i]
                != after[j] by {
                if i < before.len() {
                    assert(before.contains(before[i]));
                }
                if j < before.len() {
                    assert(before.contains(before[j]));
                }
            }
        }
    }
}

/// Which symbols are tried in a frame: different ones, none but those better than
/// the limit; and all of these, or else the best forty.
pub proof fn law_best_symbols_are_tried<S>(s: Scoring<S>, scores: Seq<S>, blank: usize, limit: i64)
    requires
        scores.len() <= usize::MAX,
    ensures
        s.symbols(scores, blank, limit).no_duplicates(),
        forall|c: usize| #[trigger]
            s.symbols(scores, blank, limit).contains(c) ==> is_tried(s, scores, blank, limit, c),
        forall|c: usize| #[trigger]
            is_tried(s, scores, blank, limit, c) ==> s.symbols(scores, blank, limit).contains(c) || (s.symbols(
                scores,
                blank,
                limit,
            ).len() == 40 && forall|p: int|
                0 <= p < 40 ==> (s.rank)(scores[#[trigger] s.symbols(scores, blank, limit)[p] as int]) <= (s.rank)(
                    scores[c as int],
                )),
{
    let found = s.candidates(scores, blank, limit, scores.len() as int);
    let ranks = Seq::new(found.len(), |p: int| (s.rank)(scores[found[p] as int]));
    beam::lemma_candidates(s, scores, blank, limit, scores.len() as int);
    lemma_candidates_are_tried(s, scores, blank, limit, scores.len() as int);
    ordering::law_stable_order_exists(ranks);
    let order = ordering::sorted_positions(ranks);
    let symbols = s.symbols(scores, blank, limit);
    assert forall|i: int, j: int| 0 <= i < symbols.len() && 0 <= j < symbols.len() && i != j implies symbols[i]
        != symbols[j] by {
        assert(order[i] != order[j]);
        assert(found[order[i] as int] != found[order[j] as int]);
    }
    assert forall|c: usize| #[trigger] symbols.contains(c) implies is_tried(s, scores, blank, limit, c) by {
        let p = choose|p: int| 0 <= p < symbols.len() && symbols[p] == c;
        assert(order[p] < found.len());
        assert(found[order[p] as int] == c);
        assert(found.contains(c));
    }
    assert forall|c: usize| #[trigger] is_tried(s, scores, blank, limit, c) && !symbols.contains(c) implies symbols.len()
        == 40 && forall|p: int|
        0 <= p < 40 ==> (s.rank)(scores[#[trigger] symbols[p] as int]) <= (s.rank)(scores[c as int]) by {
        assert(found.contains(c));
        let at = choose|at: int| 0 <= at < found.len() && found[at] == c;
        ordering::law_permutation_covers(order, ranks.len(), at);
        let q = choose|q: int| 0 <= q < order.len() && #[trigger] order[q] == at;
        if q < symbols.len() {
            assert(symbols[q] == c);
        }
        assert forall|p: int| 0 <= p < 40 implies (s.rank)(scores[#[trigger] symbols[p] as int]) <= (s.rank)(
            scores[c as int],
        ) by {
            assert(ordering::comes_before(ranks, order[p] as int, order[q] as int));
            assert(ranks[order[p] as int] == (s.rank)(scores[symbols[p] as int]));
            assert(ranks[at] == (s.rank)(scores[c as int]));
        }
    }
}

/// The first `k` frames can spell `text` with the symbols that are tried.
pub open spec fn can_spell<S>(
    s: Scoring<S>,
    frames: Seq<Seq<S>>,
    blank: usize,
    limit: i64,
    k: int,
    text: Seq<usize>,
) -> bool
    decreases k,
{
    if k <= 0 {
        text.len() == 0
    } else {
        ||| can_spell(s, frames, blank, limit, k - 1, text)
        ||| text.len() > 0 && is_tried(s, frames[k - 1], blank, limit, text.last()) && can_spell(
            s,
            frames,
            blank,
            limit,
            k - 1,
            text.drop_last(),
        )
    }
}

proof fn lemma_can_spell_more<S>(
    s: Scoring<S>,
    frames: Seq<Seq<S>>,
    blank: usize,
    limit: i64,
    k: int,
    more: int,
    text: Seq<usize>,
)
    requires
        k <= more,
        can_spell(s, frames, blank, limit, k, text),
    ensures
        can_spell(s, frames, blank, limit, more, text),
    decreases more - k,
{
    if k < more {
        if more <= 0 {
        } else {
            if k < 0 {
                assert(can_spell(s, frames, blank, limit, 0, text));
                lemma_can_spell_more(s, frames, blank, limit, 0, more, text);
            } else {
                lemma_can_spell_more(s, frames, blank, limit, k, more - 1, text);
            }
        }
    }
}

proof fn lemma_contributed_texts<S>(
    s: Scoring<S>,
    beams: Seq<Hypothesis<S>>,
    key: Seq<usize>,
    to_blank: bool,
    amount: S,
    ok: spec_fn(Seq<usize>) -> bool,
)
    requires
        forall|p: int| 0 <= p < beams.len() ==> ok((#[trigger] beams[p]).prefix),
        ok(key),
    ensures
        ({
            let after = s.contributed(beams, key, to_blank, amount);
            forall|p: int| 0 <= p < after.len() ==> ok((#[trigger] after[p]).prefix)
        }),
{
    beam::lemma_position(beams, key, 0);
    let after = s.contributed(beams, key, to_blank, amount);
    assert forall|p: int| 0 <= p < after.len() implies ok((#[trigger] after[p]).prefix) by {
        if p < beams.len() {
            assert(ok(beams[p].prefix));
        }
    }
}

proof fn lemma_continued_texts<S>(
    s: Scoring<S>,
    beams: Seq<Hypothesis<S>>,
    h: Hypothesis<S>,
    scores: Seq<S>,
    blank: usize,
    symbols: Seq<usize>,
    k: int,
    ok: spec_fn(Seq<usize>) -> bool,
)
    requires
        0 <= k <= symbols.len(),
        forall|p: int| 0 <= p < beams.len() ==> ok((#[trigger] beams[p]).prefix),
        ok(h.prefix),
        forall|p: int| 0 <= p < symbols.len() ==> ok(h.prefix.push(#[trigger] symbols[p])),
    ensures
        ({
            let after = s.continued(beams, h, scores, blank, symbols, k);
            forall|p: int| 0 <= p < after.len() ==> ok((#[trigger] after[p]).prefix)
        }),
    decreases k,
{
    if k <= 0 {
        lemma_contributed_texts(s, beams, h.prefix, true, (s.times)(s.total(h), scores[blank as int]), ok);
    } else {
        lemma_continued_texts(s, beams, h, scores, blank, symbols, k - 1, ok);
        let before = s.continued(beams, h, scores, blank, symbols, k - 1);
        let c = symbols[k - 1];
        let score = scores[c as int];
        assert(ok(h.prefix.push(c)));
        if h.prefix.len() > 0 && h.prefix.last() == c {
            lemma_contributed_texts(s, before, h.prefix, false, (s.times)(h.other, score), ok);
            let kept = s.contributed(before, h.prefix, false, (s.times)(h.other, score));
            lemma_contributed_texts(s, kept, h.prefix.push(c), false, (s.times)(h.blank, score), ok);
        } else {
            lemma_contributed_texts(s, before, h.prefix.push(c), false, (s.times)(s.total(h), score), ok);
        }
    }
}

proof fn lemma_all_continued_texts<S>(
    s: Scoring<S>,
    from: Seq<Hypothesis<S>>,
    scores: Seq<S>,
    blank: usize,
    symbols: Seq<usize>,
    n: int,
    ok: spec_fn(Seq<usize>) -> bool,
)
    requires
        0 <= n <= from.len(),
        forall|p: int| 0 <= p < from.len() ==> ok((#[trigger] from[p]).prefix),
        forall|p: int, q: int|
            #![trigger from[p], symbols[q]]
            0 <= p < from.len() && 0 <= q < symbols.len() ==> ok(from[p].prefix.push(symbols[q])),
    ensures
        ({
            let after = s.all_continued(from, scores, blank, symbols, n);
            forall|p: int| 0 <= p < after.len() ==> ok((#[trigger] after[p]).prefix)
        }),
    decreases n,
{
    if n > 0 {
        lemma_all_continued_texts(s, from, scores, blank, symbols, n - 1, ok);
        assert forall|p: int| 0 <= p < symbols.len() implies ok(from[n - 1].prefix.push(#[trigger] symbols[p])) by {
            assert(ok(from[n - 1].prefix.push(symbols[p])));
        }
        lemma_continued_texts(
            s,
            s.all_continued(from, scores, blank, symbols, n - 1),
            from[n - 1],
            scores,
            blank,
            symbols,
            symbols.len() as int,
            ok,
        );
    }
}

proof fn lemma_few_texts(texts: Seq<Seq<usize>>, words: Seq<Seq<usize>>)
    requires
        texts.no_duplicates(),
        forall|p: int| 0 <= p < texts.len() ==> words.contains(#[trigger] texts[p]),
    ensures
        texts.len() <= words.len(),
{
    texts.unique_seq_to_set();
    words.lemma_cardinality_of_set();
    assert(texts.to_set().subset_of(words.to_set())) by {
        assert forall|t: Seq<usize>| texts.to_set().contains(t) implies words.to_set().contains(t) by {
            let p = choose|p: int| 0 <= p < texts.len() && texts[p] == t;
            assert(words.contains(texts[p]));
        }
    }
    vstd::set_lib::lemma_len_subset(texts.to_set(), words.to_set());
}

/// Pruning keeps the best: everything that ranks better than something kept; all
/// there is if that is no more than twenty-five.
pub proof fn law_pruning_drops_the_worst<S>(s: Scoring<S>, beams: Seq<Hypothesis<S>>, p: int)
    requires
        beams.len() <= usize::MAX,
        0 <= p < beams.len(),
    ensures
        s.pruned(beams).contains(beams[p]) || (s.pruned(beams).len() == 25 && forall|q: int|
            0 <= q < 25 ==> (s.rank)((s.plus)((#[trigger] s.pruned(beams)[q]).blank, s.pruned(beams)[q].other)) <= (
            s.rank)((s.plus)(beams[p].blank, beams[p].other))),
        forall|q: int| 0 <= q < s.pruned(beams).len() ==> beams.contains(#[trigger] s.pruned(beams)[q]),
        beams.len() <= 25 ==> s.pruned(beams).len() == beams.len(),
{
    let ranks = Seq::new(beams.len(), |q: int| (s.rank)(s.total(beams[q])));
    ordering::law_stable_order_exists(ranks);
    let order = ordering::sorted_positions(ranks);
    let kept = s.pruned(beams);
    ordering::law_permutation_covers(order, ranks.len(), p);
    let at = choose|at: int| 0 <= at < order.len() && #[trigger] order[at] == p;
    if at < kept.len() {
        assert(kept[at] == beams[p]);
    } else {
        assert forall|q: int| 0 <= q < 25 implies (s.rank)((s.plus)((#[trigger] kept[q]).blank, kept[q].other)) <= (
        s.rank)((s.plus)(beams[p].blank, beams[p].other)) by {
            assert(ordering::comes_before(ranks, order[q] as int, order[at] as int));
            assert(ranks[order[q] as int] == (s.rank)(s.total(kept[q])));
        }
    }
    assert forall|q: int| 0 <= q < kept.len() implies beams.contains(#[trigger] kept[q]) by {
        assert(order[q] < beams.len());
        assert(beams[order[q] as int] == kept[q]);
    }
}

proof fn lemma_pruned_held<S>(s: Scoring<S>, beams: Seq<Hypothesis<S>>, text: Seq<usize>, on_blank: bool)
    requires
        beams.len() <= 25,
        forall|i: int, j: int| 0 <= i < j < beams.len() ==> (#[trigger] beams[i]).prefix != (#[trigger] beams[j]).prefix,
    ensures
        held(s, s.pruned(beams), text, on_blank) == held(s, beams, text, on_blank),
{
    let ranks = Seq::new(beams.len(), |q: int| (s.rank)(s.total(beams[q])));
    ordering::law_stable_order_exists(ranks);
    let order = ordering::sorted_positions(ranks);
    let kept = s.pruned(beams);
    assert forall|i: int, j: int| 0 <= i < j < kept.len() implies (#[trigger] kept[i]).prefix != (#[trigger] kept[j]).prefix by {
        assert(order[i] != order[j]);
        assert(kept[i] == beams[order[i] as int] && kept[j] == beams[order[j] as int]);
        if order[i] < order[j] {
            assert(beams[order[i] as int].prefix != beams[order[j] as int].prefix);
        } else {
            assert(beams[order[j] as int].prefix != beams[order[i] as int].prefix);
        }
    }
    if exists|p: int| 0 <= p < beams.len() && (#[trigger] beams[p]).prefix == text {
        let p = choose|p: int| 0 <= p < beams.len() && (#[trigger] beams[p]).prefix == text;
        ordering::law_permutation_covers(order, ranks.len(), p);
        let at = choose|at: int| 0 <= at < order.len() && #[trigger] order[at] == p;
        assert(kept[at] == beams[p]);
        lemma_held_at(s, beams, p);
        lemma_held_at(s, kept, at);
    } else {
        assert forall|q: int| 0 <= q < kept.len() implies (#[trigger] kept[q]).prefix != text by {
            assert(kept[q] == beams[order[q] as int]);
        }
        lemma_held_nowhere(s, beams, text);
        lemma_held_nowhere(s, kept, text);
    }
}

proof fn lemma_few_symbols<S>(
    s: Scoring<S>,
    frames: Seq<Seq<S>>,
    blank: usize,
    limit: i64,
    words: Seq<Seq<usize>>,
    k: int,
    t: int,
)
    requires
        0 <= t < k <= frames.len(),
        frames[t].len() <= usize::MAX,
        words.len() <= 25,
        forall|text: Seq<usize>| #[trigger] can_spell(s, frames, blank, limit, k, text) ==> words.contains(text),
    ensures
        forall|c: usize| #[trigger]
            s.symbols(frames[t], blank, limit).contains(c) <==> is_tried(s, frames[t], blank, limit, c),
        s.symbols(frames[t], blank, limit).no_duplicates(),
{
    let symbols = s.symbols(frames[t], blank, limit);
    law_best_symbols_are_tried(s, frames[t], blank, limit);
    let texts = Seq::new(symbols.len(), |p: int| seq![symbols[p]]);
    assert forall|i: int, j: int| 0 <= i < texts.len() && 0 <= j < texts.len() && i != j implies texts[i] != texts[j] by {
        assert(texts[i][0] == symbols[i] && texts[j][0] == symbols[j]);
    }
    assert forall|p: int| 0 <= p < texts.len() implies words.contains(#[trigger] texts[p]) by {
        let text = texts[p];
        assert(symbols.contains(symbols[p]));
        assert(text.last() == symbols[p]);
        assert(text.drop_last() =~= Seq::empty());
        assert(can_spell(s, frames, blank, limit, 0, Seq::empty()));
        lemma_can_spell_more(s, frames, blank, limit, 0, t, Seq::empty());
        assert(can_spell(s, frames, blank, limit, t + 1, text));
        lemma_can_spell_more(s, frames, blank, limit, t + 1, k, text);
    }
    lemma_few_texts(texts, words);
}

proof fn lemma_scores_are_sums<S>(
    s: Scoring<S>,
    frames: Seq<Seq<S>>,
    blank: usize,
    limit: i64,
    classes: int,
    words: Seq<Seq<usize>>,
    k: int,
    n: int,
)
    requires
        is_exact(s),
        0 <= k <= n <= frames.len(),
        blank < classes <= usize::MAX,
        forall|t: int| 0 <= t < frames.len() ==> (#[trigger] frames[t]).len() == classes,
        forall|t: int, c: usize|
            #![trigger frames[t][c as int]]
            0 <= t < n && c < classes && c != blank && !is_tried(s, frames[t], blank, limit, c) ==> frames[t][c as int]
                == s.none,
        words.len() <= 25,
        forall|text: Seq<usize>| #[trigger] can_spell(s, frames, blank, limit, n, text) ==> words.contains(text),
    ensures
        ({
            let beams = s.beams_after(frames, blank, limit, k);
            &&& forall|i: int, j: int|
                0 <= i < j < beams.len() ==> (#[trigger] beams[i]).prefix != (#[trigger] beams[j]).prefix
            &&& forall|p: int|
                0 <= p < beams.len() ==> can_spell(s, frames, blank, limit, k, (#[trigger] beams[p]).prefix)
            &&& forall|text: Seq<usize>|
                #![trigger held(s, beams, text, true)]
                #![trigger held(s, beams, text, false)]
                held(s, beams, text, true) == text_score(s, frames, blank, classes, k, text, true) && held(
                    s,
                    beams,
                    text,
                    false,
                ) == text_score(s, frames, blank, classes, k, text, false)
        }),
    decreases k,
{
    let beams = s.beams_after(frames, blank, limit, k);
    if k <= 0 {
        assert forall|text: Seq<usize>|
            #![trigger held(s, beams, text, true)]
            #![trigger held(s, beams, text, false)]
            held(s, beams, text, true) == text_score(s, frames, blank, classes, k, text, true) && held(
                s,
                beams,
                text,
                false,
            ) == text_score(s, frames, blank, classes, k, text, false) by {
            assert(beams[0].prefix == Seq::<usize>::empty());
            if text.len() == 0 {
                assert(text =~= Seq::empty());
                lemma_held_at(s, beams, 0);
            } else {
                lemma_held_nowhere(s, beams, text);
            }
        }
    } else {
        lemma_scores_are_sums(s, frames, blank, limit, classes, words, k - 1, n);
        beam::law_beams_are_sound(s, frames, blank, limit, classes as nat, k - 1);
        let from = s.beams_after(frames, blank, limit, k - 1);
        let scores = frames[k - 1];
        let symbols = s.symbols(scores, blank, limit);
        let grown = s.all_continued(from, scores, blank, symbols, from.len() as int);
        lemma_few_symbols(s, frames, blank, limit, words, n, k - 1);
        beam::lemma_symbols(s, scores, blank, limit);
        beam::lemma_all_continued_sound(s, from, scores, blank, symbols, from.len() as int, k);
        let ok = |text: Seq<usize>| can_spell(s, frames, blank, limit, k, text);
        assert forall|p: int, q: int|
            #![trigger from[p], symbols[q]]
            0 <= p < from.len() && 0 <= q < symbols.len() implies ok(from[p].prefix.push(symbols[q])) by {
            let longer = from[p].prefix.push(symbols[q]);
            assert(longer.drop_last() =~= from[p].prefix);
            assert(symbols.contains(symbols[q]));
        }
        lemma_all_continued_texts(s, from, scores, blank, symbols, from.len() as int, ok);
        let texts = Seq::new(grown.len(), |p: int| grown[p].prefix);
        assert forall|i: int, j: int| 0 <= i < texts.len() && 0 <= j < texts.len() && i != j implies texts[i]
            != texts[j] by {
            if i < j {
                assert(grown[i].prefix != grown[j].prefix);
            } else {
                assert(grown[j].prefix != grown[i].prefix);
            }
        }
        assert forall|p: int| 0 <= p < texts.len() implies words.contains(#[trigger] texts[p]) by {
            assert(ok(grown[p].prefix));
            lemma_can_spell_more(s, frames, blank, limit, k, n, grown[p].prefix);
        }
        lemma_few_texts(texts, words);
        beam::law_beams_are_sound(s, frames, blank, limit, classes as nat, k);
        assert forall|p: int| 0 <= p < beams.len() implies can_spell(
            s,
            frames,
            blank,
            limit,
            k,
            (#[trigger] beams[p]).prefix,
        ) by {
            law_pruning_drops_the_worst(s, grown, 0);
            assert(grown.contains(beams[p]));
            let q = choose|q: int| 0 <= q < grown.len() && grown[q] == beams[p];
            assert(ok(grown[q].prefix));
        }
        assert forall|text: Seq<usize>|
            #![trigger held(s, beams, text, true)]
            #![trigger held(s, beams, text, false)]
            held(s, beams, text, true) == text_score(s, frames, blank, classes, k, text, true) && held(
                s,
                beams,
                text,
                false,
            ) == text_score(s, frames, blank, classes, k, text, false) by {
            lemma_pruned_held(s, grown, text, true);
            lemma_pruned_held(s, grown, text, false);
            lemma_grown_held(s, from, scores, blank, symbols, text);
            lemma_text_score_on_blank(s, frames, blank, classes, k, text);
            if text.len() > 0 && text.last() != blank && text.last() < classes {
                let d = text.last();
                let rest = text.drop_last();
                lemma_text_score_on_symbol(s, frames, blank, classes, k, text);
                assert(held(s, from, text, false) == text_score(s, frames, blank, classes, k - 1, text, false));
                assert(held(s, from, rest, true) == text_score(s, frames, blank, classes, k - 1, rest, true));
                assert(held(s, from, rest, false) == text_score(s, frames, blank, classes, k - 1, rest, false));
                if !symbols.contains(d) {
                    assert(!is_tried(s, scores, blank, limit, d));
                    assert(frames[k - 1][d as int] == s.none);
                    lemma_nothing_times(s, text_score(s, frames, blank, classes, k - 1, text, false));
                    lemma_nothing_times(s, text_score(s, frames, blank, classes, k - 1, rest, true));
                    lemma_nothing_times(
                        s,
                        (s.plus)(
                            text_score(s, frames, blank, classes, k - 1, rest, true),
                            text_score(s, frames, blank, classes, k - 1, rest, false),
                        ),
                    );
                }
            } else {
                lemma_text_score_none(s, frames, blank, classes, k, text);
                if text.len() > 0 {
                    assert(!is_tried(s, scores, blank, limit, text.last()));
                }
            }
        }
    }
}

proof fn lemma_nothing_times<S>(s: Scoring<S>, a: S)
    requires
        is_exact(s),
    ensures
        (s.times)(a, s.none) == s.none,
        (s.plus)(s.none, s.none) == s.none,
{
}

/// What the search computes. With exact scores, where no symbol with a score is
/// left out and at most twenty-five texts can be spelled, so that nothing is
/// dropped: each hypothesis has as its two scores the sums over all paths that read
/// as its text, of those that end in the blank and of the others; and there is no
/// path with a score to any other text.
pub proof fn law_scores_are_sums_over_paths<S>(
    s: Scoring<S>,
    frames: Seq<Seq<S>>,
    blank: usize,
    limit: i64,
    classes: int,
    words: Seq<Seq<usize>>,
    text: Seq<usize>,
)
    requires
        is_exact(s),
        blank < classes <= usize::MAX,
        forall|t: int| 0 <= t < frames.len() ==> (#[trigger] frames[t]).len() == classes,
        forall|t: int, c: usize|
            #![trigger frames[t][c as int]]
            0 <= t < frames.len() && c < classes && c != blank && !((s.rank)(frames[t][c as int]) < limit)
                ==> frames[t][c as int] == s.none,
        words.len() <= 25,
        forall|w: Seq<usize>| #[trigger]
            can_spell(s, frames, blank, limit, frames.len() as int, w) ==> words.contains(w),
    ensures
        ({
            let n = frames.len() as int;
            let beams = s.beams_after(frames, blank, limit, n);
            &&& forall|p: int|
                0 <= p < beams.len() && (#[trigger] beams[p]).prefix == text ==> beams[p].blank == text_score(
                    s,
                    frames,
                    blank,
                    classes,
                    n,
                    text,
                    true,
                ) && beams[p].other == text_score(s, frames, blank, classes, n, text, false)
            &&& (forall|p: int| 0 <= p < beams.len() ==> (#[trigger] beams[p]).prefix != text) ==> text_score(
                s,
                frames,
                blank,
                classes,
                n,
                text,
                true,
            ) == s.none && text_score(s, frames, blank, classes, n, text, false) == s.none
        }),
{
    let n = frames.len() as int;
    let beams = s.beams_after(frames, blank, limit, n);
    lemma_scores_are_sums(s, frames, blank, limit, classes, words, n, n);
    assert(held(s, beams, text, true) == text_score(s, frames, blank, classes, n, text, true));
    assert(held(s, beams, text, false) == text_score(s, frames, blank, classes, n, text, false));
    if exists|p: int| 0 <= p < beams.len() && (#[trigger] beams[p]).prefix == text {
        let p = choose|p: int| 0 <= p < beams.len() && (#[trigger] beams[p]).prefix == text;
        lemma_held_at(s, beams, p);
    } else {
        lemma_held_nowhere(s, beams, text);
    }
}

/// One symbol alone has a score in each frame: that of `path`.
pub open spec fn is_sure<S>(
    s: Scoring<S>,
    frames: Seq<Seq<S>>,
    blank: usize,
    limit: i64,
    classes: int,
    path: Seq<usize>,
) -> bool {
    &&& path.len() == frames.len()
    &&& forall|t: int| 0 <= t < frames.len() ==> (#[trigger] frames[t]).len() == classes
    &&& forall|t: int|
        0 <= t < path.len() ==> (#[trigger] path[t]) < classes && (path[t] == blank || (s.rank)(
            frames[t][path[t] as int],
        ) < limit)
    &&& forall|t: int, c: usize|
        #![trigger frames[t][c as int]]
        0 <= t < path.len() && c < classes && c != path[t] ==> frames[t][c as int] == s.none
    &&& forall|k: int|
        0 <= k <= path.len() ==> (s.rank)(#[trigger] weight(s, frames, path.take(k))) < (s.rank)(s.none)
}

/// The hypotheses when the frames up to `k` follow `path`: the first one reads as
/// the path does and has its score, and no other has a score.
spec fn follows<S>(s: Scoring<S>, frames: Seq<Seq<S>>, blank: usize, path: Seq<usize>, beams: Seq<Hypothesis<S>>) -> bool {
    &&& beams.len() > 0
    &&& beams[0].prefix == collapsed(path, blank)
    &&& beams[0].blank == (if ends_blank(path, blank) {
        weight(s, frames, path)
    } else {
        s.none
    })
    &&& beams[0].other == (if ends_blank(path, blank) {
        s.none
    } else {
        weight(s, frames, path)
    })
    &&& forall|p: int| 1 <= p < beams.len() ==> (#[trigger] beams[p]).blank == s.none && beams[p].other == s.none
}

proof fn lemma_follows_held<S>(
    s: Scoring<S>,
    frames: Seq<Seq<S>>,
    blank: usize,
    path: Seq<usize>,
    beams: Seq<Hypothesis<S>>,
    text: Seq<usize>,
    on_blank: bool,
)
    requires
        follows(s, frames, blank, path, beams),
        forall|i: int, j: int| 0 <= i < j < beams.len() ==> (#[trigger] beams[i]).prefix != (#[trigger] beams[j]).prefix,
    ensures
        held(s, beams, text, on_blank) == (if text == collapsed(path, blank) && on_blank == ends_blank(path, blank) {
            weight(s, frames, path)
        } else {
            s.none
        }),
{
    if exists|p: int| 0 <= p < beams.len() && (#[trigger] beams[p]).prefix == text {
        let p = choose|p: int| 0 <= p < beams.len() && (#[trigger] beams[p]).prefix == text;
        lemma_held_at(s, beams, p);
        if p > 0 {
            assert(beams[0].prefix != beams[p].prefix);
        }
    } else {
        lemma_held_nowhere(s, beams, text);
    }
}

proof fn lemma_follows_path<S>(
    s: Scoring<S>,
    frames: Seq<Seq<S>>,
    blank: usize,
    limit: i64,
    classes: int,
    path: Seq<usize>,
    k: int,
)
    requires
        is_exact(s),
        blank < classes <= usize::MAX,
        is_sure(s, frames, blank, limit, classes, path),
        limit <= (s.rank)(s.none),
        0 <= k <= path.len(),
    ensures
        follows(s, frames, blank, path.take(k), s.beams_after(frames, blank, limit, k)),
    decreases k,
{
    let beams = s.beams_after(frames, blank, limit, k);
    if k <= 0 {
        assert(path.take(0) =~= Seq::empty());
    } else {
        lemma_follows_path(s, frames, blank, limit, classes, path, k - 1);
        beam::law_beams_are_sound(s, frames, blank, limit, classes as nat, k - 1);
        let from = s.beams_after(frames, blank, limit, k - 1);
        let before = path.take(k - 1);
        let now = path.take(k);
        let d = path[k - 1];
        let scores = frames[k - 1];
        let symbols = s.symbols(scores, blank, limit);
        let grown = s.all_continued(from, scores, blank, symbols, from.len() as int);
        assert(now =~= before.push(d));
        lemma_collapsed_push(before, d, blank);
        lemma_weight_push(s, frames, before, d);
        if !ends_blank(before, blank) {
            lemma_collapsed_ends(before, blank);
        }
        law_best_symbols_are_tried(s, scores, blank, limit);
        beam::lemma_symbols(s, scores, blank, limit);
        beam::lemma_all_continued_sound(s, from, scores, blank, symbols, from.len() as int, k);
        assert forall|c: usize| #[trigger] symbols.contains(c) implies c == d && d != blank by {
            assert(is_tried(s, scores, blank, limit, c));
            if c != d {
                assert(frames[k - 1][c as int] == s.none);
            }
        }
        if d != blank {
            assert(is_tried(s, scores, blank, limit, d)) by {
                assert(path[k - 1] < classes);
            }
            assert(symbols.contains(d)) by {
                if !symbols.contains(d) {
                    assert(symbols.contains(symbols[0]));
                    assert(symbols.contains(symbols[1]));
                    assert(symbols[0] != symbols[1]);
                }
            }
        }
        let text = collapsed(now, blank);
        lemma_exact_is_neutral(s);
        assert forall|other: Seq<usize>, on_blank: bool| #[trigger] held(s, grown, other, on_blank) == (if other == text
            && on_blank == ends_blank(now, blank) {
            weight(s, frames, now)
        } else {
            s.none
        }) by {
            lemma_grown_held(s, from, scores, blank, symbols, other);
            lemma_follows_held(s, frames, blank, before, from, other, true);
            lemma_follows_held(s, frames, blank, before, from, other, false);
            if d != blank {
                assert(frames[k - 1][blank as int] == s.none);
                lemma_nothing_times(s, (s.plus)(held(s, from, other, true), held(s, from, other, false)));
            }
            if other.len() > 0 {
                let rest = other.drop_last();
                lemma_follows_held(s, frames, blank, before, from, rest, true);
                lemma_follows_held(s, frames, blank, before, from, rest, false);
                if other.last() == d {
                    assert(rest.push(d) =~= other);
                    assert(rest.len() != other.len());
                }
            }
            lemma_sure_step(before, now, blank, d);
        }
        lemma_best_is_first(s, grown, text, ends_blank(now, blank), weight(s, frames, now));
    }
}

/// What a text's last symbol tells of the path before it.
proof fn lemma_sure_step(before: Seq<usize>, now: Seq<usize>, blank: usize, d: usize)
    requires
        now == before.push(d),
    ensures
        ends_blank(now, blank) == (d == blank),
        d == blank ==> collapsed(now, blank) == collapsed(before, blank),
        d != blank ==> collapsed(now, blank).len() > 0 && collapsed(now, blank).last() == d,
        d != blank && before.len() > 0 && before.last() == d ==> collapsed(now, blank) == collapsed(before, blank),
        d != blank && !(before.len() > 0 && before.last() == d) ==> collapsed(now, blank) == collapsed(
            before,
            blank,
        ).push(d) && collapsed(now, blank).drop_last() == collapsed(before, blank),
        !ends_blank(before, blank) ==> collapsed(before, blank).len() > 0 && collapsed(before, blank).last()
            == before.last(),
{
    assert(now.last() == d);
    lemma_collapsed_push(before, d, blank);
    if d != blank {
        lemma_collapsed_ends(now, blank);
    }
    if !ends_blank(before, blank) {
        lemma_collapsed_ends(before, blank);
    }
    assert(collapsed(before, blank).push(d).drop_last() =~= collapsed(before, blank));
}

proof fn lemma_best_is_first<S>(
    s: Scoring<S>,
    grown: Seq<Hypothesis<S>>,
    text: Seq<usize>,
    on_blank: bool,
    w: S,
)
    requires
        is_neutral(s),
        0 < grown.len() <= usize::MAX,
        forall|i: int, j: int| 0 <= i < j < grown.len() ==> (#[trigger] grown[i]).prefix != (#[trigger] grown[j]).prefix,
        forall|other: Seq<usize>, b: bool| #[trigger]
            held(s, grown, other, b) == (if other == text && b == on_blank {
                w
            } else {
                s.none
            }),
        (s.rank)(w) < (s.rank)(s.none),
    ensures
        ({
            let kept = s.pruned(grown);
            &&& kept.len() > 0
            &&& kept[0].prefix == text
            &&& kept[0].blank == (if on_blank {
                w
            } else {
                s.none
            })
            &&& kept[0].other == (if on_blank {
                s.none
            } else {
                w
            })
            &&& forall|p: int| 1 <= p < kept.len() ==> (#[trigger] kept[p]).blank == s.none && kept[p].other == s.none
        }),
{
    let ranks = Seq::new(grown.len(), |q: int| (s.rank)(s.total(grown[q])));
    ordering::law_stable_order_exists(ranks);
    let order = ordering::sorted_positions(ranks);
    let kept = s.pruned(grown);
    assert(held(s, grown, text, on_blank) == w);
    let at = beam::position(grown, text, 0);
    beam::lemma_position(grown, text, 0);
    assert(at < grown.len()) by {
        if at >= grown.len() {
            assert(w == s.none);
        }
    }
    assert forall|p: int| 0 <= p < grown.len() implies (#[trigger] grown[p]).blank == held(s, grown, grown[p].prefix, true)
        && grown[p].other == held(s, grown, grown[p].prefix, false) by {
        lemma_held_at(s, grown, p);
    }
    ordering::law_permutation_covers(order, ranks.len(), at);
    let q = choose|q: int| 0 <= q < order.len() && #[trigger] order[q] == at;
    assert(order[0] < grown.len());
    if order[0] != at {
        assert(ordering::comes_before(ranks, order[0] as int, order[q] as int));
        assert(grown[order[0] as int].prefix != text) by {
            if order[0] < at {
                assert(grown[order[0] as int].prefix != grown[at].prefix);
            } else {
                assert(grown[at].prefix != grown[order[0] as int].prefix);
            }
        }
        assert(ranks[order[0] as int] == (s.rank)(s.none));
        assert(ranks[at] == (s.rank)(w));
        assert(false);
    }
    assert(kept[0] == grown[at]);
    assert forall|p: int| 1 <= p < kept.len() implies (#[trigger] kept[p]).blank == s.none && kept[p].other == s.none by {
        assert(order[p] != order[0]);
        assert(kept[p] == grown[order[p] as int]);
        if order[p] < at {
            assert(grown[order[p] as int].prefix != grown[at].prefix);
        } else {
            assert(grown[at].prefix != grown[order[p] as int].prefix);
        }
    }
}

/// Where one symbol alone has a score in each frame, the best hypothesis reads as
/// these symbols do, one after the other: held symbols count once, blanks not at
/// all, and a symbol that comes again after a blank counts again. Its score is that
/// of the path.
pub proof fn law_sure_symbols_are_read<S>(
    s: Scoring<S>,
    frames: Seq<Seq<S>>,
    blank: usize,
    limit: i64,
    classes: int,
    path: Seq<usize>,
)
    requires
        is_exact(s),
        blank < classes <= usize::MAX,
        is_sure(s, frames, blank, limit, classes, path),
        limit <= (s.rank)(s.none),
    ensures
        ({
            let beams = s.beams_after(frames, blank, limit, frames.len() as int);
            &&& beams.len() > 0
            &&& beams[0].prefix == collapsed(path, blank)
            &&& (s.plus)(beams[0].blank, beams[0].other) == weight(s, frames, path)
        }),
{
    lemma_follows_path(s, frames, blank, limit, classes, path, path.len() as int);
    assert(path.take(path.len() as int) =~= path);
    lemma_exact_is_neutral(s);
}

/// `at` is the place of `text` among the hypotheses, or the end if it is not there.
pub open spec fn is_place<S>(beams: Seq<Hypothesis<S>>, text: Seq<usize>, at: int) -> bool {
    ||| 0 <= at < beams.len() && beams[at].prefix == text
    ||| at == beams.len() && forall|p: int| 0 <= p < beams.len() ==> (#[trigger] beams[p]).prefix != text
}

/// One frame more, whatever was dropped before. A hypothesis has on the blank the
/// score that its text had, times the blank's. Otherwise its last symbol was held,
/// from the paths to the same text that did not end in the blank, or it is new, from
/// all paths to the text without it; if that text ends in the same symbol, only from
/// those that ended in the blank. `same` and `rest` are the places of both texts
/// among the hypotheses before.
pub proof fn law_step_adds_up<S>(
    s: Scoring<S>,
    from: Seq<Hypothesis<S>>,
    scores: Seq<S>,
    blank: usize,
    limit: i64,
    most: int,
    p: int,
    same: int,
    rest: int,
)
    requires
        is_exact(s),
        blank < scores.len() <= usize::MAX,
        from.len() <= 25,
        beam::sound(from, blank, scores.len(), most),
        0 <= p < s.step(from, scores, blank, limit).len(),
        is_place(from, s.step(from, scores, blank, limit)[p].prefix, same),
        s.step(from, scores, blank, limit)[p].prefix.len() > 0 ==> is_place(
            from,
            s.step(from, scores, blank, limit)[p].prefix.drop_last(),
            rest,
        ),
    ensures
        ({
            let h = s.step(from, scores, blank, limit)[p];
            &&& h.blank == (if same < from.len() {
                (s.times)((s.plus)(from[same].blank, from[same].other), scores[blank as int])
            } else {
                s.none
            })
            &&& h.prefix.len() == 0 ==> h.other == s.none
            &&& h.prefix.len() > 0 && s.symbols(scores, blank, limit).contains(h.prefix.last()) ==> {
                let score = scores[h.prefix.last() as int];
                h.other == (s.plus)(
                    if same < from.len() {
                        (s.times)(from[same].other, score)
                    } else {
                        s.none
                    },
                    if rest == from.len() {
                        s.none
                    } else if h.prefix.len() > 1 && h.prefix[h.prefix.len() - 2] == h.prefix.last() {
                        (s.times)(from[rest].blank, score)
                    } else {
                        (s.times)((s.plus)(from[rest].blank, from[rest].other), score)
                    },
                )
            }
            &&& h.prefix.len() > 0 && !s.symbols(scores, blank, limit).contains(h.prefix.last()) ==> h.other == s.none
        }),
{
    let symbols = s.symbols(scores, blank, limit);
    let grown = s.all_continued(from, scores, blank, symbols, from.len() as int);
    let kept = s.step(from, scores, blank, limit);
    let text = kept[p].prefix;
    law_best_symbols_are_tried(s, scores, blank, limit);
    beam::lemma_symbols(s, scores, blank, limit);
    beam::lemma_all_continued_sound(s, from, scores, blank, symbols, from.len() as int, most + 1);
    if from.len() > 0 {
        law_pruning_drops_the_worst(s, grown, 0);
    }
    assert(grown.contains(kept[p]));
    let q = choose|q: int| 0 <= q < grown.len() && grown[q] == kept[p];
    lemma_held_at(s, grown, q);
    lemma_grown_held(s, from, scores, blank, symbols, text);
    lemma_exact_is_neutral(s);
    if same < from.len() {
        lemma_held_at(s, from, same);
    } else {
        lemma_held_nowhere(s, from, text);
    }
    if text.len() > 0 {
        let shorter = text.drop_last();
        if shorter.len() > 0 {
            assert(shorter.last() == text[text.len() - 2]);
        }
        if rest < from.len() {
            lemma_held_at(s, from, rest);
        } else {
            lemma_held_nowhere(s, from, shorter);
        }
    }
}

} // verus!
