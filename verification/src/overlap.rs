//! Joining readings of overlapping segments.
//!
//! Each segment repeats the end of the one before it. Two readings are joined
//! by finding how many characters of the second repeat the end of the first.

use vstd::prelude::*;

use crate::chars;
use crate::repair;

verus! {

/// The last `k` characters of `a` are the first `k` of `b`.
pub open spec fn is_overlap(a: Seq<char>, b: Seq<char>, k: int) -> bool {
    &&& 0 <= k <= a.len()
    &&& k <= b.len()
    &&& forall|i: int| 0 <= i < k ==> #[trigger] b[i] == a[a.len() - k + i]
}

/// Of the first `i` characters of `b`, how many agree with the characters of
/// `a` from position `from` on.
pub open spec fn agreements(a: Seq<char>, b: Seq<char>, from: int, i: int) -> nat
    decreases i,
{
    if i <= 0 {
        0
    } else {
        agreements(a, b, from, i - 1) + (if a[from + i - 1] == b[i - 1] {
            1nat
        } else {
            0
        })
    }
}

/// The last `k` characters of `a` are the first `k` of `b`, but for one.
pub open spec fn is_near_overlap(a: Seq<char>, b: Seq<char>, k: int) -> bool {
    &&& 0 <= k <= a.len()
    &&& k <= b.len()
    &&& agreements(a, b, a.len() - k, k) >= k - 1
}

/// The longest overlap of at most `k` and at least `least` characters, or 0.
pub open spec fn longest(a: Seq<char>, b: Seq<char>, least: int, k: int) -> int
    decreases k,
{
    if k < least || k <= 0 {
        0
    } else if is_overlap(a, b, k) {
        k
    } else {
        longest(a, b, least, k - 1)
    }
}

/// The longest near overlap of at most `k` and at least three characters, or 0.
pub open spec fn longest_near(a: Seq<char>, b: Seq<char>, k: int) -> int
    decreases k,
{
    if k < 3 {
        0
    } else if is_near_overlap(a, b, k) {
        k
    } else {
        longest_near(a, b, k - 1)
    }
}

/// The least of three numbers.
pub open spec fn least(a: int, b: int, c: int) -> int {
    let ab = if a < b {
        a
    } else {
        b
    };
    if c < ab {
        c
    } else {
        ab
    }
}

fn least_of(a: usize, b: usize, c: usize) -> (m: usize)
    ensures
        m == least(a as int, b as int, c as int),
{
    let ab = if a < b {
        a
    } else {
        b
    };
    if c < ab {
        c
    } else {
        ab
    }
}

/// Exact overlaps are looked for up to this length.
pub const EXACT_REACH: usize = 20;

/// Near overlaps are looked for up to this length.
pub const NEAR_REACH: usize = 15;

/// The exact overlap of two readings.
pub open spec fn exact_overlap(a: Seq<char>, b: Seq<char>) -> int {
    longest(a, b, 1, least(a.len() as int, b.len() as int, EXACT_REACH as int))
}

/// The near overlap of two readings.
pub open spec fn near_overlap(a: Seq<char>, b: Seq<char>) -> int {
    longest_near(a, b, least(a.len() as int, b.len() as int, NEAR_REACH as int))
}

/// How many digits `a` ends with.
pub open spec fn trailing_digits(a: Seq<char>) -> nat
    decreases a.len(),
{
    if a.len() > 0 && chars::is_digit(a.last()) {
        trailing_digits(a.drop_last()) + 1
    } else {
        0
    }
}

/// How many digits follow in `b` from `i` on.
pub open spec fn digits_from(b: Seq<char>, i: int) -> nat
    decreases b.len() - i,
{
    if 0 <= i < b.len() && chars::is_digit(b[i]) {
        digits_from(b, i + 1) + 1
    } else {
        0
    }
}

/// The overlap of a number that was cut in two: at least two digits at the end
/// of `a` that are also at the start of `b`.
pub open spec fn numeric_overlap(a: Seq<char>, b: Seq<char>) -> int {
    let ends = trailing_digits(a) as int;
    let starts = digits_from(b, 0) as int;
    longest(
        a,
        b,
        2,
        if ends < starts {
            ends
        } else {
            starts
        },
    )
}

/// The overlap of two readings in which one character may differ.
pub open spec fn fuzzy_overlap(a: Seq<char>, b: Seq<char>) -> int {
    let near = near_overlap(a, b);
    if near > 0 {
        near
    } else {
        numeric_overlap(a, b)
    }
}

fn overlaps(a: &Vec<char>, b: &Vec<char>, k: usize) -> (yes: bool)
    requires
        k <= a.len(),
        k <= b.len(),
    ensures
        yes == is_overlap(a@, b@, k as int),
{
    let from: usize = a.len() - k;
    let mut i: usize = 0;
    while i < k
        invariant
            i <= k,
            k <= b.len(),
            from + k == a.len(),
            forall|j: int| 0 <= j < i ==> #[trigger] b[j] == a[from + j],
        decreases k - i,
    {
        if a[from + i] != b[i] {
            assert(b@[i as int] != a@[a@.len() - k + i]);
            return false;
        }
        i = i + 1;
    }
    true
}

fn count_agreements(a: &Vec<char>, b: &Vec<char>, k: usize) -> (count: usize)
    requires
        k <= a.len(),
        k <= b.len(),
    ensures
        count <= k,
        count == agreements(a@, b@, a.len() - k, k as int),
{
    let from: usize = a.len() - k;
    let mut count: usize = 0;
    let mut i: usize = 0;
    while i < k
        invariant
            i <= k,
            k <= b.len(),
            from + k == a.len(),
            count <= i,
            count == agreements(a@, b@, from as int, i as int),
        decreases k - i,
    {
        if a[from + i] == b[i] {
            count = count + 1;
        }
        i = i + 1;
    }
    count
}

fn find_longest(a: &Vec<char>, b: &Vec<char>, least: usize, most: usize) -> (k: usize)
    requires
        least > 0,
        most <= a.len(),
        most <= b.len(),
    ensures
        k <= most,
        k == longest(a@, b@, least as int, most as int),
{
    let mut k: usize = most;
    while k >= least
        invariant
            least > 0,
            k <= most,
            most <= a.len(),
            most <= b.len(),
            longest(a@, b@, least as int, most as int) == longest(a@, b@, least as int, k as int),
        decreases k,
    {
        if overlaps(a, b, k) {
            return k;
        }
        k = k - 1;
    }
    0
}

/// How many characters at the start of `b` repeat the end of `a`.
pub fn find_exact_overlap(a: &Vec<char>, b: &Vec<char>) -> (k: usize)
    ensures
        k <= b.len(),
        k == exact_overlap(a@, b@),
{
    let most = least_of(a.len(), b.len(), EXACT_REACH);
    find_longest(a, b, 1, most)
}

/// How many characters at the start of `b` repeat the end of `a`, if one of
/// them may differ.
pub fn find_near_overlap(a: &Vec<char>, b: &Vec<char>) -> (k: usize)
    ensures
        k <= b.len(),
        k == near_overlap(a@, b@),
{
    let most = least_of(a.len(), b.len(), NEAR_REACH);
    let mut k: usize = most;
    while k >= 3
        invariant
            k <= most,
            most <= a.len(),
            most <= b.len(),
            most == least(a.len() as int, b.len() as int, NEAR_REACH as int),
            near_overlap(a@, b@) == longest_near(a@, b@, k as int),
        decreases k,
    {
        if count_agreements(a, b, k) >= k - 1 {
            return k;
        }
        k = k - 1;
    }
    0
}

/// How many digits `b` has from `i` on.
pub fn count_digits(b: &Vec<char>, i: usize) -> (count: usize)
    requires
        i <= b.len(),
    ensures
        i + count <= b.len(),
        count == digits_from(b@, i as int),
        forall|j: int| i <= j < i + count ==> chars::is_digit(#[trigger] b[j]),
{
    let mut end: usize = i;
    while end < b.len() && chars::digit(b[end])
        invariant
            i <= end <= b.len(),
            digits_from(b@, i as int) == digits_from(b@, end as int) + (end - i),
            forall|j: int| i <= j < end ==> chars::is_digit(#[trigger] b[j]),
        decreases b.len() - end,
    {
        end = end + 1;
    }
    end - i
}

/// How many digits at the start of `b` repeat digits at the end of `a`.
pub fn find_numeric_overlap(a: &Vec<char>, b: &Vec<char>) -> (k: usize)
    ensures
        k <= b.len(),
        k == numeric_overlap(a@, b@),
{
    let mut from: usize = a.len();
    assert(a@.take(a.len() as int) =~= a@);
    while from > 0 && chars::digit(a[from - 1])
        invariant
            from <= a.len(),
            trailing_digits(a@) == trailing_digits(a@.take(from as int)) + (a.len() - from),
        decreases from,
    {
        assert(a@.take(from as int).last() == a@[from - 1]);
        assert(a@.take(from as int).drop_last() =~= a@.take(from - 1));
        from = from - 1;
    }
    proof {
        if from > 0 {
            assert(a@.take(from as int).last() == a@[from - 1]);
        }
    }
    let ends: usize = a.len() - from;
    let starts = count_digits(b, 0);
    let most = if ends < starts {
        ends
    } else {
        starts
    };
    find_longest(a, b, 2, most)
}

/// How many characters at the start of `b` repeat the end of `a`, if one may
/// differ or a number was cut in two.
pub fn find_fuzzy_overlap(a: &Vec<char>, b: &Vec<char>) -> (k: usize)
    ensures
        k <= b.len(),
        k == fuzzy_overlap(a@, b@),
{
    let near = find_near_overlap(a, b);
    if near > 0 {
        near
    } else {
        find_numeric_overlap(a, b)
    }
}

/// The texts as sequences.
pub open spec fn texts(segments: Seq<String>) -> Seq<Seq<char>> {
    Seq::new(segments.len(), |p: int| segments[p]@)
}

/// The overlap by which readings are joined: exact if there is one, else near.
pub open spec fn plain_overlap(a: Seq<char>, b: Seq<char>) -> int {
    let exact = exact_overlap(a, b);
    if exact > 0 {
        exact
    } else {
        near_overlap(a, b)
    }
}

/// The overlap by which readings with cut numbers are joined: exact if there is
/// one, else fuzzy.
pub open spec fn tolerant_overlap(a: Seq<char>, b: Seq<char>) -> int {
    let exact = exact_overlap(a, b);
    if exact > 0 {
        exact
    } else {
        fuzzy_overlap(a, b)
    }
}

/// The first `k` texts joined, each without what it repeats.
pub open spec fn joined(all: Seq<Seq<char>>, k: int, overlap: spec_fn(Seq<char>, Seq<char>) -> int) -> Seq<char>
    decreases k,
{
    if k <= 0 {
        Seq::empty()
    } else if k == 1 {
        all[0]
    } else {
        let before = joined(all, k - 1, overlap);
        before + all[k - 1].skip(overlap(before, all[k - 1]))
    }
}

/// Joins readings of overlapping segments.
pub fn merge_segments_by_text(segments: &Vec<String>) -> (merged: String)
    ensures
        merged@ == joined(
            texts(segments@),
            segments.len() as int,
            |a: Seq<char>, b: Seq<char>| plain_overlap(a, b),
        ),
{
    let ghost all = texts(segments@);
    let ghost overlap = |a: Seq<char>, b: Seq<char>| plain_overlap(a, b);
    if segments.len() == 0 {
        let empty = String::new();
        assert(empty@ =~= Seq::empty());
        return empty;
    }
    let mut result = chars::chars_of(segments[0].as_str());
    let mut k: usize = 1;
    while k < segments.len()
        invariant
            1 <= k <= segments.len(),
            all == texts(segments@),
            overlap == (|a: Seq<char>, b: Seq<char>| plain_overlap(a, b)),
            result@ == joined(all, k as int, overlap),
        decreases segments.len() - k,
    {
        let next = chars::chars_of(segments[k].as_str());
        let exact = find_exact_overlap(&result, &next);
        let repeated = if exact > 0 {
            exact
        } else {
            find_near_overlap(&result, &next)
        };
        chars::append_from(&mut result, &next, repeated);
        k = k + 1;
    }
    chars::text_of(&result)
}

/// Joins readings of overlapping segments, and repairs what joining repeats.
pub fn merge_overlapping_segments(segments: &Vec<String>) -> (merged: String)
    ensures
        merged@ == repair::unrepeated(
            joined(texts(segments@), segments.len() as int, |a: Seq<char>, b: Seq<char>| tolerant_overlap(a, b)),
        ),
{
    let ghost all = texts(segments@);
    let ghost overlap = |a: Seq<char>, b: Seq<char>| tolerant_overlap(a, b);
    let mut result: Vec<char> = Vec::new();
    if segments.len() > 0 {
        result = chars::chars_of(segments[0].as_str());
        let mut k: usize = 1;
        while k < segments.len()
            invariant
                1 <= k <= segments.len(),
                all == texts(segments@),
                overlap == (|a: Seq<char>, b: Seq<char>| tolerant_overlap(a, b)),
                result@ == joined(all, k as int, overlap),
            decreases segments.len() - k,
        {
            let next = chars::chars_of(segments[k].as_str());
            let exact = find_exact_overlap(&result, &next);
            let repeated = if exact > 0 {
                exact
            } else {
                find_fuzzy_overlap(&result, &next)
            };
            chars::append_from(&mut result, &next, repeated);
            k = k + 1;
        }
    }
    assert(result@ =~= joined(all, segments.len() as int, overlap));
    let clean = repair::clean_chars(&result);
    chars::text_of(&clean)
}

/// Of the overlaps up to `k` in which at least three of five characters agree,
/// the one with the most agreements by length, and that product.
pub open spec fn best_scored(a: Seq<char>, b: Seq<char>, k: int) -> (int, int)
    decreases k,
{
    if k <= 0 {
        (0, 0)
    } else {
        let (best, score) = best_scored(a, b, k - 1);
        let count = agreements(a, b, a.len() - k, k) as int;
        if count * 5 >= k * 3 && count * k > score {
            (k, count * k)
        } else {
            (best, score)
        }
    }
}

/// How far a scored overlap may reach: a quarter of the text and as much again,
/// but at least five characters more than the quarter.
pub open spec fn scored_reach(a: Seq<char>, b: Seq<char>) -> int {
    let quarter = b.len() as int / 4;
    least(
        quarter + (if quarter < 5 {
            5
        } else {
            quarter
        }),
        a.len() as int,
        b.len() as int,
    )
}

/// The overlap with the best score.
pub open spec fn scored_overlap(a: Seq<char>, b: Seq<char>) -> int {
    best_scored(a, b, scored_reach(a, b)).0
}

/// How many characters at the start of `b` best repeat the end of `a`.
pub fn find_scored_overlap(a: &Vec<char>, b: &Vec<char>) -> (k: usize)
    ensures
        k <= b.len(),
        k == scored_overlap(a@, b@),
{
    let quarter: usize = b.len() / 4;
    let extra: usize = if quarter < 5 {
        5
    } else {
        quarter
    };
    let wanted: usize = quarter + extra;
    let most = least_of(wanted, a.len(), b.len());
    let mut best: usize = 0;
    let mut score: u128 = 0;
    let mut k: usize = 0;
    while k < most
        invariant
            k <= most,
            most <= a.len(),
            most <= b.len(),
            best <= k,
            (best as int, score as int) == best_scored(a@, b@, k as int),
        decreases most - k,
    {
        k = k + 1;
        let count = count_agreements(a, b, k);
        let product = product_of(count, k);
        if count as u128 * 5 >= k as u128 * 3 && product > score {
            best = k;
            score = product;
        }
    }
    best
}

fn product_of(a: usize, b: usize) -> (p: u128)
    ensures
        p == a * b,
{
    assert(a * b <= 0xffff_ffff_ffff_ffff * 0xffff_ffff_ffff_ffff) by (nonlinear_arith)
        requires
            a <= 0xffff_ffff_ffff_ffff,
            b <= 0xffff_ffff_ffff_ffff,
    ;
    assert(a * b >= 0) by (nonlinear_arith);
    a as u128 * b as u128
}

/// Joins readings of overlapping segments by their best overlaps, and takes out
/// what is repeated at the joints.
pub fn merge_segments_improved(segments: &Vec<String>) -> (merged: String)
    ensures
        merged@ == {
            let all = joined(
                texts(segments@),
                segments.len() as int,
                |a: Seq<char>, b: Seq<char>| scored_overlap(a, b),
            );
            if segments.len() <= 1 {
                all
            } else {
                repair::unechoed(all)
            }
        },
{
    let ghost all = texts(segments@);
    let ghost overlap = |a: Seq<char>, b: Seq<char>| scored_overlap(a, b);
    if segments.len() == 0 {
        let empty = String::new();
        assert(empty@ =~= Seq::empty());
        return empty;
    }
    if segments.len() == 1 {
        return segments[0].clone();
    }
    let mut result = chars::chars_of(segments[0].as_str());
    let mut k: usize = 1;
    while k < segments.len()
        invariant
            1 <= k <= segments.len(),
            all == texts(segments@),
            overlap == (|a: Seq<char>, b: Seq<char>| scored_overlap(a, b)),
            result@ == joined(all, k as int, overlap),
        decreases segments.len() - k,
    {
        let next = chars::chars_of(segments[k].as_str());
        let repeated = find_scored_overlap(&result, &next);
        chars::append_from(&mut result, &next, repeated);
        k = k + 1;
    }
    let clean = repair::remove_echoes(&result);
    chars::text_of(&clean)
}

proof fn lemma_longest(a: Seq<char>, b: Seq<char>, least: int, k: int)
    requires
        least > 0,
        0 <= k,
    ensures
        0 <= longest(a, b, least, k) <= k,
        longest(a, b, least, k) > 0 ==> is_overlap(a, b, longest(a, b, least, k)) && longest(a, b, least, k) >= least,
        forall|j: int| longest(a, b, least, k) < j <= k && least <= j ==> !#[trigger] is_overlap(a, b, j),
    decreases k,
{
    if k >= least && !is_overlap(a, b, k) {
        lemma_longest(a, b, least, k - 1);
    }
}

/// The exact overlap is an overlap, and none within reach is longer.
pub proof fn law_exact_overlap_is_longest(a: Seq<char>, b: Seq<char>, j: int)
    requires
        1 <= j <= EXACT_REACH,
        is_overlap(a, b, j),
    ensures
        is_overlap(a, b, exact_overlap(a, b)),
        j <= exact_overlap(a, b),
{
    lemma_longest(a, b, 1, least(a.len() as int, b.len() as int, EXACT_REACH as int));
}

/// Joining keeps the text before, and by an exact overlap it keeps the text
/// after too: the second text ends the joined one.
pub proof fn law_joining_keeps_both(a: Seq<char>, b: Seq<char>)
    ensures
        ({
            let k = exact_overlap(a, b);
            let whole = a + b.skip(k);
            &&& 0 <= k <= b.len()
            &&& whole.take(a.len() as int) == a
            &&& whole.skip(a.len() - k) == b
        }),
{
    lemma_longest(a, b, 1, least(a.len() as int, b.len() as int, EXACT_REACH as int));
    let k = exact_overlap(a, b);
    let whole = a + b.skip(k);
    assert(whole.take(a.len() as int) =~= a);
    assert forall|i: int| 0 <= i < b.len() implies whole.skip(a.len() - k)[i] == b[i] by {
        if k > 0 && i < k {
            assert(b[i] == a[a.len() - k + i]);
        }
    }
    assert(whole.skip(a.len() - k) =~= b);
}

/// A text cut in two with an overlap within reach is had back by joining, if no
/// longer overlap misleads.
pub proof fn law_cut_text_is_rejoined(text: Seq<char>, from: int, to: int)
    requires
        0 <= from < to <= text.len(),
        to - from <= EXACT_REACH,
        forall|j: int| to - from < j <= EXACT_REACH ==> !#[trigger] is_overlap(text.take(to), text.skip(from), j),
    ensures
        ({
            let a = text.take(to);
            let b = text.skip(from);
            a + b.skip(exact_overlap(a, b)) == text
        }),
{
    let a = text.take(to);
    let b = text.skip(from);
    let j = to - from;
    assert(is_overlap(a, b, j));
    law_exact_overlap_is_longest(a, b, j);
    lemma_longest(a, b, 1, least(a.len() as int, b.len() as int, EXACT_REACH as int));
    assert(exact_overlap(a, b) == j);
    assert(a + b.skip(j) =~= text);
}

/// The places among the first `k` of `b` that agree with the last `k` of `a`.
pub open spec fn agreeing(a: Seq<char>, b: Seq<char>, k: int) -> Set<int> {
    Set::new(|i: int| 0 <= i < k && b[i] == a[a.len() - k + i])
}

proof fn lemma_agreements(a: Seq<char>, b: Seq<char>, from: int, i: int)
    requires
        0 <= i,
    ensures
        Set::new(|j: int| 0 <= j < i && b[j] == a[from + j]).finite(),
        Set::new(|j: int| 0 <= j < i && b[j] == a[from + j]).len() == agreements(a, b, from, i),
    decreases i,
{
    let all = Set::new(|j: int| 0 <= j < i && b[j] == a[from + j]);
    if i <= 0 {
        assert(all =~= Set::empty());
    } else {
        lemma_agreements(a, b, from, i - 1);
        let fewer = Set::new(|j: int| 0 <= j < i - 1 && b[j] == a[from + j]);
        if a[from + i - 1] == b[i - 1] {
            assert(all =~= fewer.insert(i - 1));
        } else {
            assert(all =~= fewer);
        }
    }
}

proof fn lemma_agreeing(a: Seq<char>, b: Seq<char>, k: int)
    requires
        0 <= k,
    ensures
        agreeing(a, b, k).len() == agreements(a, b, a.len() - k, k),
{
    lemma_agreements(a, b, a.len() - k, k);
    assert(agreeing(a, b, k) =~= Set::new(|j: int| 0 <= j < k && b[j] == a[a.len() - k + j]));
}

proof fn lemma_longest_near(a: Seq<char>, b: Seq<char>, k: int)
    requires
        0 <= k,
    ensures
        0 <= longest_near(a, b, k) <= k,
        longest_near(a, b, k) > 0 ==> longest_near(a, b, k) >= 3 && is_near_overlap(a, b, longest_near(a, b, k)),
        forall|j: int| longest_near(a, b, k) < j <= k && 3 <= j ==> !#[trigger] is_near_overlap(a, b, j),
    decreases k,
{
    if k >= 3 && !is_near_overlap(a, b, k) {
        lemma_longest_near(a, b, k - 1);
    }
}

/// The near overlap: from three to fifteen characters of which all but at most one
/// agree, and the most that do; none if there are no such.
pub proof fn law_near_overlap_is_longest(a: Seq<char>, b: Seq<char>, j: int)
    ensures
        ({
            let k = near_overlap(a, b);
            &&& k == 0 || 3 <= k <= 15 && k <= a.len() && k <= b.len() && agreeing(a, b, k).len() >= k - 1
            &&& 3 <= j <= 15 && j <= a.len() && j <= b.len() && agreeing(a, b, j).len() >= j - 1 ==> j <= k
        }),
{
    let reach = least(a.len() as int, b.len() as int, 15);
    lemma_longest_near(a, b, reach);
    let k = near_overlap(a, b);
    if k > 0 {
        lemma_agreeing(a, b, k);
    }
    if 3 <= j <= reach {
        lemma_agreeing(a, b, j);
        if j > k {
            assert(!is_near_overlap(a, b, j));
        }
    }
}

proof fn lemma_best_scored(a: Seq<char>, b: Seq<char>, k: int, j: int)
    requires
        0 <= k,
    ensures
        ({
            let (best, score) = best_scored(a, b, k);
            &&& 0 <= best <= k
            &&& score == agreements(a, b, a.len() - best, best) * best
            &&& best > 0 ==> agreements(a, b, a.len() - best, best) * 5 >= best * 3
            &&& 0 < j <= k && agreements(a, b, a.len() - j, j) * 5 >= j * 3 ==> agreements(a, b, a.len() - j, j) * j
                <= score
            &&& 0 < j < best && agreements(a, b, a.len() - j, j) * 5 >= j * 3 ==> agreements(a, b, a.len() - j, j) * j
                < score
        }),
    decreases k,
{
    if k > 0 {
        lemma_best_scored(a, b, k - 1, j);
        let (best, score) = best_scored(a, b, k - 1);
        lemma_best_scored(a, b, k - 1, best);
    } else {
        assert(agreements(a, b, a.len() - 0, 0) * 0 == 0);
    }
}

/// The scored overlap: of the lengths within reach at which three fifths agree or
/// more, the one with the highest product of length and agreeing characters, the
/// shortest of several. The reach is a quarter of the text and as much again, or
/// five more.
pub proof fn law_scored_overlap_is_best(a: Seq<char>, b: Seq<char>, j: int)
    requires
        0 < j <= a.len(),
        j <= b.len(),
        j <= b.len() / 4 + 5 || j <= 2 * (b.len() / 4),
        agreeing(a, b, j).len() * 5 >= j * 3,
    ensures
        ({
            let k = scored_overlap(a, b);
            &&& 0 < k <= a.len() && k <= b.len() && (k <= b.len() / 4 + 5 || k <= 2 * (b.len() / 4))
            &&& agreeing(a, b, k).len() * 5 >= k * 3
            &&& agreeing(a, b, j).len() * j <= agreeing(a, b, k).len() * k
            &&& j < k ==> agreeing(a, b, j).len() * j < agreeing(a, b, k).len() * k
        }),
{
    let reach = scored_reach(a, b);
    lemma_best_scored(a, b, reach, j);
    let k = scored_overlap(a, b);
    lemma_agreeing(a, b, j);
    lemma_agreeing(a, b, k);
    let n = agreements(a, b, a.len() - j, j) as int;
    assert(n * j > 0) by (nonlinear_arith)
        requires
            n * 5 >= j * 3,
            j > 0,
    ;
    if k == 0 {
        assert(agreements(a, b, a.len() - 0, 0) * 0 == 0);
    }
}

/// The overlap of a number that was cut in two: two digits or more, and as many as
/// there are.
pub proof fn law_numeric_overlap_is_longest(a: Seq<char>, b: Seq<char>, j: int)
    requires
        2 <= j <= a.len(),
        j <= b.len(),
        forall|i: int| 0 <= i < j ==> '0' <= #[trigger] b[i] <= '9' && b[i] == a[a.len() - j + i],
    ensures
        ({
            let k = numeric_overlap(a, b);
            &&& j <= k <= a.len() && k <= b.len()
            &&& forall|i: int| 0 <= i < k ==> '0' <= #[trigger] b[i] <= '9' && b[i] == a[a.len() - k + i]
        }),
{
    let ends = trailing_digits(a) as int;
    let starts = digits_from(b, 0) as int;
    let reach = if ends < starts {
        ends
    } else {
        starts
    };
    lemma_longest(a, b, 2, reach);
    lemma_starts(b, 0, j);
    lemma_ends(a, j, b);
    assert(is_overlap(a, b, j));
    let k = numeric_overlap(a, b);
    lemma_digits_are(b, 0);
    assert forall|i: int| 0 <= i < k implies '0' <= #[trigger] b[i] <= '9' && b[i] == a[a.len() - k + i] by {
        assert(chars::is_digit(b[i]));
    }
}

proof fn lemma_starts(b: Seq<char>, i: int, j: int)
    requires
        0 <= i <= j <= b.len(),
        forall|k: int| 0 <= k < j ==> '0' <= #[trigger] b[k] <= '9',
    ensures
        digits_from(b, i) >= j - i,
    decreases j - i,
{
    if i < j {
        assert('0' <= b[i] <= '9');
        lemma_starts(b, i + 1, j);
    }
}

proof fn lemma_digits_are(b: Seq<char>, i: int)
    requires
        0 <= i <= b.len(),
    ensures
        i + digits_from(b, i) <= b.len(),
        forall|k: int| i <= k < i + digits_from(b, i) ==> chars::is_digit(#[trigger] b[k]),
    decreases b.len() - i,
{
    if i < b.len() && chars::is_digit(b[i]) {
        lemma_digits_are(b, i + 1);
    }
}

proof fn lemma_ends(a: Seq<char>, j: int, b: Seq<char>)
    requires
        0 <= j <= a.len(),
        j <= b.len(),
        forall|i: int| 0 <= i < j ==> '0' <= #[trigger] b[i] <= '9' && b[i] == a[a.len() - j + i],
    ensures
        trailing_digits(a) >= j,
    decreases j,
{
    if j > 0 {
        assert(b[j - 1] == a[a.len() - 1]);
        let fewer = a.drop_last();
        assert forall|i: int| 0 <= i < j - 1 implies '0' <= #[trigger] b[i] <= '9' && b[i] == fewer[fewer.len() - (j - 1)
            + i] by {
            assert(b[i] == a[a.len() - j + i]);
        }
        lemma_ends(fewer, j - 1, b);
    }
}

/// Two segments of a text that share one to twenty characters are joined to the
/// text, if no longer overlap misleads; whichever way of joining is taken that
/// prefers exact overlaps.
pub proof fn law_segments_are_joined_to_the_text(text: Seq<char>, from: int, to: int)
    requires
        0 <= from < to <= text.len(),
        to - from <= 20,
        forall|j: int| to - from < j <= 20 ==> !#[trigger] is_overlap(text.take(to), text.skip(from), j),
    ensures
        ({
            let both = seq![text.take(to), text.skip(from)];
            &&& joined(both, 2, |a: Seq<char>, b: Seq<char>| plain_overlap(a, b)) == text
            &&& joined(both, 2, |a: Seq<char>, b: Seq<char>| tolerant_overlap(a, b)) == text
        }),
{
    law_cut_text_is_rejoined(text, from, to);
    let a = text.take(to);
    let b = text.skip(from);
    assert(is_overlap(a, b, to - from));
    law_exact_overlap_is_longest(a, b, to - from);
    let both = seq![a, b];
    let plain = |x: Seq<char>, y: Seq<char>| plain_overlap(x, y);
    let tolerant = |x: Seq<char>, y: Seq<char>| tolerant_overlap(x, y);
    assert(joined(both, 1, plain) == a);
    assert(joined(both, 1, tolerant) == a);
}

} // verus!
