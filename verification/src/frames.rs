//! The scores of a line's frames: `size` scores for each frame, one after the
//! other.

use vstd::prelude::*;

verus! {

/// The scores of frame `t`, if they are all there.
pub open spec fn frame<T>(scores: Seq<T>, size: int, t: int) -> Seq<T> {
    if t * size + size <= scores.len() {
        scores.subrange(t * size, t * size + size)
    } else {
        Seq::empty()
    }
}

/// The scores of the frames from `from` up to `to`.
pub open spec fn frames_between<T>(scores: Seq<T>, size: int, from: int, to: int) -> Seq<T>
    decreases to - from,
{
    if from >= to {
        Seq::empty()
    } else {
        frames_between(scores, size, from, to - 1) + frame(scores, size, to - 1)
    }
}

/// The smaller of two numbers.
pub open spec fn lower(a: int, b: int) -> int {
    if a < b {
        a
    } else {
        b
    }
}

/// `a / b`, rounded; halves go up.
pub open spec fn rounded(a: int, b: int) -> int {
    (2 * a + b) / (2 * b)
}

/// How many frames a line has in all. `bounds` tells from which column up to
/// which each chunk of the line reaches; the first chunk fills the model's
/// frames, and a single chunk is the whole line.
pub open spec fn expected_total(bounds: Seq<(u32, u32)>, time_steps: int) -> int {
    if bounds.len() == 0 {
        0
    } else if bounds.len() == 1 {
        time_steps
    } else {
        rounded(bounds.last().1 * time_steps, bounds[0].1 - bounds[0].0)
    }
}

/// How many frames chunk `i` gives where later chunks follow: the first seven
/// tenths of its frames, another four tenths.
pub open spec fn wanted(time_steps: int, i: int) -> int {
    if i == 0 {
        7 * time_steps / 10
    } else {
        4 * time_steps / 10
    }
}

/// How many frames the first `k` chunks give of `total`, where later chunks
/// follow.
pub open spec fn given_before(total: int, time_steps: int, k: int) -> int
    decreases k,
{
    if k <= 0 {
        0
    } else {
        lower(given_before(total, time_steps, k - 1) + wanted(time_steps, k - 1), total)
    }
}

/// How many frames chunk `i` of `n` gives: what it is wanted for, as far as there
/// is any left, and the last one all that is left.
pub open spec fn share(total: int, time_steps: int, n: int, i: int) -> int {
    let before = given_before(total, time_steps, i);
    if i == n - 1 {
        total - before
    } else {
        given_before(total, time_steps, i + 1) - before
    }
}

/// The sum of the first `k` lengths.
pub open spec fn sum(lengths: Seq<usize>, k: int) -> int
    decreases k,
{
    if k <= 0 {
        0
    } else {
        sum(lengths, k - 1) + lengths[k - 1]
    }
}

/// The chunks of a line in several chunks: the first has some columns, and the
/// line's frames can be counted.
pub open spec fn are_bounds(bounds: Seq<(u32, u32)>, time_steps: int) -> bool {
    bounds.len() >= 2 ==> bounds[0].0 < bounds[0].1 && expected_total(bounds, time_steps) <= usize::MAX
}

fn tenths(n: usize, count: usize) -> (part: usize)
    requires
        count <= 10,
    ensures
        part == count * n / 10,
        part <= n,
{
    assert(count * n <= 10 * n) by (nonlinear_arith)
        requires
            0 <= count <= 10,
            0 <= n,
    ;
    (count as u128 * n as u128 / 10) as usize
}

fn count_expected(bounds: &Vec<(u32, u32)>, time_steps: usize) -> (total: usize)
    requires
        are_bounds(bounds@, time_steps as int),
    ensures
        total == expected_total(bounds@, time_steps as int),
{
    if bounds.len() == 0 {
        return 0;
    }
    if bounds.len() == 1 {
        return time_steps;
    }
    let end: u32 = bounds[bounds.len() - 1].1;
    let width: u32 = bounds[0].1 - bounds[0].0;
    let columns: u128 = product(end as usize, time_steps);
    assert(columns <= 0xffff_ffff * 0xffff_ffff_ffff_ffff) by (nonlinear_arith)
        requires
            columns == end * time_steps,
            0 <= end <= 0xffff_ffff,
            0 <= time_steps <= 0xffff_ffff_ffff_ffff,
    ;
    assert(columns == bounds@.last().1 * time_steps);
    ((2 * columns + width as u128) / (2 * width as u128)) as usize
}

proof fn lemma_given_before(total: int, time_steps: int, k: int)
    requires
        0 <= total,
        0 <= time_steps,
    ensures
        0 <= given_before(total, time_steps, k) <= total,
    decreases k,
{
    if k > 0 {
        lemma_given_before(total, time_steps, k - 1);
    }
}

/// How many frames each chunk of a line gives. All together give the line's
/// frames.
pub fn calculate_chunk_lengths(bounds: &Vec<(u32, u32)>, time_steps: usize) -> (lengths: Vec<usize>)
    requires
        are_bounds(bounds@, time_steps as int),
    ensures
        lengths.len() == bounds.len(),
        forall|i: int|
            0 <= i < lengths.len() ==> #[trigger] lengths[i] == share(
                expected_total(bounds@, time_steps as int),
                time_steps as int,
                bounds.len() as int,
                i,
            ),
        sum(lengths@, lengths.len() as int) == expected_total(bounds@, time_steps as int),
{
    let total = count_expected(bounds, time_steps);
    let n = bounds.len();
    let mut lengths: Vec<usize> = Vec::new();
    let mut before: usize = 0;
    while lengths.len() < n
        invariant
            n == bounds.len(),
            total == expected_total(bounds@, time_steps as int),
            lengths.len() <= n,
            before <= total,
            lengths.len() < n || n == 0 ==> before == given_before(total as int, time_steps as int, lengths.len() as int),
            sum(lengths@, lengths.len() as int) == if lengths.len() == n {
                total as int
            } else {
                before as int
            },
            forall|k: int|
                0 <= k < lengths.len() ==> #[trigger] lengths[k] == share(total as int, time_steps as int, n as int, k),
        decreases n - lengths.len(),
    {
        let ghost so_far = lengths@;
        let i = lengths.len();
        let left: usize = total - before;
        let length: usize = if i == n - 1 {
            left
        } else {
            let most = if i == 0 {
                tenths(time_steps, 7)
            } else {
                tenths(time_steps, 4)
            };
            if most < left {
                most
            } else {
                left
            }
        };
        assert(given_before(total as int, time_steps as int, i + 1) == lower(
            before + wanted(time_steps as int, i as int),
            total as int,
        ));
        lengths.push(length);
        before = before + length;
        proof {
            lemma_sum_prefix(so_far, lengths@, i as int);
        }
    }
    lengths
}

proof fn lemma_sum_prefix(a: Seq<usize>, b: Seq<usize>, k: int)
    requires
        k <= a.len(),
        k <= b.len(),
        forall|i: int| 0 <= i < k ==> a[i] == #[trigger] b[i],
    ensures
        sum(a, k) == sum(b, k),
    decreases k,
{
    if k > 0 {
        lemma_sum_prefix(a, b, k - 1);
    }
}

/// How many frames of a later chunk are passed over first: three tenths of them,
/// rounded.
pub open spec fn passed_over(time_steps: int) -> int {
    rounded(3 * time_steps, 10)
}

/// The frames that chunk `i` of `n` gives: the first chunk from its start, a later
/// one behind the frames that are passed over; none beyond its end.
pub open spec fn taken(total: int, time_steps: int, n: int, i: int) -> (int, int) {
    let from = if i == 0 {
        0
    } else {
        lower(passed_over(time_steps), time_steps)
    };
    (from, lower(from + share(total, time_steps, n, i), time_steps))
}

/// The scores of the first `k` of the chunks of a line with `total` frames, put
/// together.
pub open spec fn merged<T>(chunks: Seq<Seq<T>>, size: int, time_steps: int, total: int, k: int) -> Seq<T>
    decreases k,
{
    if k <= 0 {
        Seq::empty()
    } else {
        let (from, to) = taken(total, time_steps, chunks.len() as int, k - 1);
        merged(chunks, size, time_steps, total, k - 1) + frames_between(chunks[k - 1], size, from, to)
    }
}

/// The chunks as sequences.
pub open spec fn contents<T>(chunks: Seq<Vec<T>>) -> Seq<Seq<T>> {
    Seq::new(chunks.len(), |p: int| chunks[p]@)
}

/// Puts the frames from `from` up to `to` at the end of `out`; frames that are
/// not all there are left out.
pub fn append_frames<T: Copy>(out: &mut Vec<T>, scores: &Vec<T>, size: usize, from: usize, to: usize)
    requires
        from <= to,
    ensures
        final(out)@ == old(out)@ + frames_between(scores@, size as int, from as int, to as int),
{
    let ghost before = out@;
    let mut t: usize = from;
    assert(before + Seq::<T>::empty() =~= before);
    while t < to
        invariant
            from <= t <= to,
            out@ == before + frames_between(scores@, size as int, from as int, t as int),
        decreases to - t,
    {
        let ghost so_far = out@;
        let base: u128 = product(t, size);
        if base + size as u128 <= scores.len() as u128 {
            let start: usize = base as usize;
            let mut i: usize = 0;
            assert(scores@.subrange(start as int, start as int) =~= Seq::empty());
            while i < size
                invariant
                    i <= size,
                    start == t * size,
                    start + size <= scores.len(),
                    out@ == so_far + scores@.subrange(start as int, start + i),
                decreases size - i,
            {
                out.push(scores[start + i]);
                i = i + 1;
                assert(out@ =~= so_far + scores@.subrange(start as int, start + i));
            }
            assert(out@ =~= before + frames_between(scores@, size as int, from as int, t + 1));
        } else {
            assert(out@ =~= before + frames_between(scores@, size as int, from as int, t + 1));
        }
        t = t + 1;
    }
}

fn product(a: usize, b: usize) -> (p: u128)
    ensures
        p == a * b,
        p <= 0xffff_ffff_ffff_ffff * 0xffff_ffff_ffff_ffff,
{
    assert(0 <= a * b <= 0xffff_ffff_ffff_ffff * 0xffff_ffff_ffff_ffff) by (nonlinear_arith)
        requires
            0 <= a <= 0xffff_ffff_ffff_ffff,
            0 <= b <= 0xffff_ffff_ffff_ffff,
    ;
    a as u128 * b as u128
}

fn copied<T: Copy>(scores: &Vec<T>) -> (copy: Vec<T>)
    ensures
        copy@ == scores@,
{
    let mut copy: Vec<T> = Vec::new();
    let mut i: usize = 0;
    while i < scores.len()
        invariant
            i <= scores.len(),
            copy@ == scores@.take(i as int),
        decreases scores.len() - i,
    {
        copy.push(scores[i]);
        i = i + 1;
        assert(scores@.take(i as int) =~= scores@.take(i - 1).push(scores@[i - 1]));
    }
    assert(scores@.take(scores.len() as int) =~= scores@);
    copy
}

/// Puts the scores of a line's chunks together: of one chunk all of them, of
/// several the frames that each gives. `bounds` tells the columns of each chunk.
pub fn merge_chunk_logits_by_boundary<T: Copy>(
    chunks: &Vec<Vec<T>>,
    bounds: &Vec<(u32, u32)>,
    size: usize,
    time_steps: usize,
) -> (out: Vec<T>)
    requires
        bounds.len() == chunks.len(),
        are_bounds(bounds@, time_steps as int),
    ensures
        out@ == if chunks.len() == 1 {
            chunks[0]@
        } else {
            merged(
                contents(chunks@),
                size as int,
                time_steps as int,
                expected_total(bounds@, time_steps as int),
                chunks.len() as int,
            )
        },
{
    if chunks.len() == 1 {
        return copied(&chunks[0]);
    }
    let mut out: Vec<T> = Vec::new();
    let ghost all = contents(chunks@);
    let ghost total = expected_total(bounds@, time_steps as int);
    let lengths = calculate_chunk_lengths(bounds, time_steps);
    let skip: usize = ((6 * time_steps as u128 + 10) / 20) as usize;
    let mut k: usize = 0;
    while k < chunks.len()
        invariant
            k <= chunks.len(),
            all == contents(chunks@),
            lengths.len() == chunks.len(),
            skip == passed_over(time_steps as int),
            forall|i: int|
                0 <= i < lengths.len() ==> #[trigger] lengths[i] == share(
                    total,
                    time_steps as int,
                    chunks.len() as int,
                    i,
                ),
            out@ == merged(all, size as int, time_steps as int, total, k as int),
        decreases chunks.len() - k,
    {
        let from: usize = if k == 0 {
            0
        } else if skip < time_steps {
            skip
        } else {
            time_steps
        };
        let to: usize = if lengths[k] < time_steps - from {
            from + lengths[k]
        } else {
            time_steps
        };
        assert((from as int, to as int) == taken(total, time_steps as int, chunks.len() as int, k as int));
        append_frames(&mut out, &chunks[k], size, from, to);
        assert(all[k as int] == chunks[k as int]@);
        k = k + 1;
    }
    out
}

/// The frames that chunk `i` of `n` keeps when `border` frames are cut where it
/// meets another.
pub open spec fn inner(time_steps: int, border: int, n: int, i: int) -> (int, int) {
    (
        if i == 0 {
            0
        } else {
            border
        },
        if i == n - 1 {
            time_steps
        } else {
            time_steps - border
        },
    )
}

/// The scores of all inner frames of a chunk are there.
pub open spec fn holds_inner<T>(scores: Seq<T>, size: int, frames: (int, int)) -> bool {
    frames.0 < frames.1 ==> scores.len() >= frames.1 * size
}

/// The inner frames of the first `k` chunks, put together.
pub open spec fn merged_inner<T>(chunks: Seq<Seq<T>>, size: int, time_steps: int, border: int, k: int) -> Seq<T>
    decreases k,
{
    if k <= 0 {
        Seq::empty()
    } else {
        let (from, to) = inner(time_steps, border, chunks.len() as int, k - 1);
        merged_inner(chunks, size, time_steps, border, k - 1) + frames_between(chunks[k - 1], size, from, to)
    }
}

/// Puts the scores of chunks together, each without `border` frames where it
/// meets another.
pub fn merge_chunk_logits<T: Copy>(chunks: &Vec<Vec<T>>, size: usize, time_steps: usize, border: usize) -> (out: Vec<T>)
    requires
        chunks.len() > 1 ==> border <= time_steps,
        chunks.len() > 1 ==> forall|p: int|
            0 <= p < chunks.len() ==> holds_inner(
                (#[trigger] chunks[p])@,
                size as int,
                inner(time_steps as int, border as int, chunks.len() as int, p),
            ),
    ensures
        out@ == if chunks.len() == 1 {
            chunks[0]@
        } else {
            merged_inner(contents(chunks@), size as int, time_steps as int, border as int, chunks.len() as int)
        },
{
    if chunks.len() == 1 {
        return copied(&chunks[0]);
    }
    let ghost all = contents(chunks@);
    let mut out: Vec<T> = Vec::new();
    let mut k: usize = 0;
    while k < chunks.len()
        invariant
            k <= chunks.len(),
            chunks.len() > 0 ==> border <= time_steps,
            all == contents(chunks@),
            out@ == merged_inner(all, size as int, time_steps as int, border as int, k as int),
        decreases chunks.len() - k,
    {
        let from: usize = if k == 0 {
            0
        } else {
            border
        };
        let to: usize = if k == chunks.len() - 1 {
            time_steps
        } else {
            time_steps - border
        };
        if from <= to {
            append_frames(&mut out, &chunks[k], size, from, to);
        } else {
            assert(out@ + frames_between(chunks[k as int]@, size as int, from as int, to as int) =~= out@);
        }
        assert(all[k as int] == chunks[k as int]@);
        k = k + 1;
    }
    out
}

/// All the frames, one after the other, are the scores.
pub proof fn law_all_frames_are_the_scores<T>(scores: Seq<T>, size: int, steps: int)
    requires
        0 <= size,
        0 <= steps,
        scores.len() >= steps * size,
    ensures
        frames_between(scores, size, 0, steps) == scores.take(steps * size),
    decreases steps,
{
    if steps > 0 {
        assert(steps * size == (steps - 1) * size + size) by (nonlinear_arith);
        assert(0 <= (steps - 1) * size) by (nonlinear_arith)
            requires
                0 <= size,
                1 <= steps,
        ;
        law_all_frames_are_the_scores(scores, size, steps - 1);
        assert(frames_between(scores, size, 0, steps) =~= scores.take(steps * size));
    } else {
        assert(steps * size == 0) by (nonlinear_arith)
            requires
                steps == 0,
        ;
        assert(scores.take(0) =~= Seq::<T>::empty());
    }
}

/// The number of scores in the frames from `from` up to `to` of full scores.
pub proof fn lemma_frames_len<T>(scores: Seq<T>, size: int, from: int, to: int)
    requires
        0 <= size,
        0 <= from <= to,
        scores.len() >= to * size,
    ensures
        frames_between(scores, size, from, to).len() == (to - from) * size,
    decreases to - from,
{
    if from < to {
        assert(to * size == (to - 1) * size + size) by (nonlinear_arith);
        assert((to - from) * size == (to - 1 - from) * size + size) by (nonlinear_arith);
        assert(0 <= (to - 1) * size) by (nonlinear_arith)
            requires
                0 <= size,
                1 <= to,
        ;
        lemma_frames_len(scores, size, from, to - 1);
    } else {
        assert((to - from) * size == 0) by (nonlinear_arith)
            requires
                to == from,
        ;
    }
}

/// How many frames the first `k` of `n` chunks really give.
pub open spec fn total_given(total: int, time_steps: int, n: int, k: int) -> int
    decreases k,
{
    if k <= 0 {
        0
    } else {
        let (from, to) = taken(total, time_steps, n, k - 1);
        total_given(total, time_steps, n, k - 1) + (to - from)
    }
}

/// The merged scores of full chunks are whole frames: as many as the chunks
/// give.
pub proof fn law_merged_is_whole_frames<T>(chunks: Seq<Seq<T>>, size: int, time_steps: int, total: int, k: int)
    requires
        0 <= size,
        0 <= time_steps,
        0 <= total,
        0 <= k <= chunks.len(),
        forall|p: int| 0 <= p < chunks.len() ==> (#[trigger] chunks[p]).len() >= time_steps * size,
    ensures
        merged(chunks, size, time_steps, total, k).len() == total_given(
            total,
            time_steps,
            chunks.len() as int,
            k,
        ) * size,
    decreases k,
{
    let n = chunks.len() as int;
    if k > 0 {
        law_merged_is_whole_frames(chunks, size, time_steps, total, k - 1);
        lemma_given_before(total, time_steps, k - 1);
        let (from, to) = taken(total, time_steps, n, k - 1);
        assert(to * size <= time_steps * size) by (nonlinear_arith)
            requires
                0 <= size,
                to <= time_steps,
        ;
        lemma_frames_len(chunks[k - 1], size, from, to);
        let before = total_given(total, time_steps, n, k - 1);
        assert((before + (to - from)) * size == before * size + (to - from) * size) by (nonlinear_arith);
    } else {
        assert(0 * size == 0) by (nonlinear_arith);
    }
}

/// The converter may be asked about every byte.
pub open spec fn convert_callable<T, F: Fn(u8) -> T>(convert: F) -> bool {
    forall|b: u8| #[trigger] call_requires(convert, (b,))
}

/// The converter converts as `value` says.
pub open spec fn converts<T, F: Fn(u8) -> T>(convert: F, value: spec_fn(u8) -> T) -> bool {
    forall|b: u8, r: T| #[trigger] call_ensures(convert, (b,), r) ==> r == value(b)
}

/// The score at place `i` of a chunk: within the frames from `from` up to `to`
/// what the model gave, elsewhere one that only the blank has.
pub open spec fn chunk_score<T>(
    raw: Seq<u8>,
    size: int,
    blank: int,
    from: int,
    to: int,
    value: spec_fn(u8) -> T,
    sure: T,
    never: T,
    i: int,
) -> T {
    if from <= i / size < to {
        value(raw[i])
    } else if i % size == blank {
        sure
    } else {
        never
    }
}

proof fn lemma_content_is_there(k: int, size: int, time_steps: int, from: int, to: int, len: int)
    requires
        0 <= k < time_steps * size,
        0 < size,
        from < lower(to, time_steps) ==> len >= lower(to, time_steps) * size,
    ensures
        from <= k / size < to ==> k < len,
{
    let t = k / size;
    let end = lower(to, time_steps);
    assert(t < time_steps && k < (t + 1) * size) by (nonlinear_arith)
        requires
            t == k / size,
            0 <= k < time_steps * size,
            0 < size,
    ;
    if from <= t < to {
        assert((t + 1) * size <= end * size) by (nonlinear_arith)
            requires
                t + 1 <= end,
                0 < size,
        ;
    }
}

/// The scores of a chunk from the model's raw output; frames outside the content
/// are made blank.
pub fn chunk_scores<T: Copy, F: Fn(u8) -> T>(
    raw: &Vec<u8>,
    size: usize,
    time_steps: usize,
    blank: usize,
    from: usize,
    to: usize,
    convert: F,
    sure: T,
    never: T,
) -> (scores: Vec<T>)
    requires
        size > 0,
        time_steps * size <= usize::MAX,
        from < lower(to as int, time_steps as int) ==> raw.len() >= lower(to as int, time_steps as int) * size,
        convert_callable(convert),
    ensures
        scores.len() == time_steps * size,
        forall|value: spec_fn(u8) -> T| #[trigger]
            converts(convert, value) ==> scores@ == Seq::new(
                (time_steps * size) as nat,
                |i: int|
                    chunk_score(raw@, size as int, blank as int, from as int, to as int, value, sure, never, i),
            ),
{
    let total: usize = time_steps * size;
    let mut scores: Vec<T> = Vec::new();
    let mut k: usize = 0;
    while k < total
        invariant
            k <= total,
            total == time_steps * size,
            size > 0,
            from < lower(to as int, time_steps as int) ==> raw.len() >= lower(to as int, time_steps as int) * size,
            scores.len() == k,
            convert_callable(convert),
            forall|value: spec_fn(u8) -> T| #[trigger]
                converts(convert, value) ==> forall|i: int|
                    0 <= i < k ==> #[trigger] scores[i] == chunk_score(
                        raw@,
                        size as int,
                        blank as int,
                        from as int,
                        to as int,
                        value,
                        sure,
                        never,
                        i,
                    ),
        decreases total - k,
    {
        let t: usize = k / size;
        proof {
            lemma_content_is_there(k as int, size as int, time_steps as int, from as int, to as int, raw.len() as int);
        }
        let score = if from <= t && t < to {
            convert(raw[k])
        } else if k % size == blank {
            sure
        } else {
            never
        };
        scores.push(score);
        k = k + 1;
    }
    proof {
        assert forall|value: spec_fn(u8) -> T| #[trigger] converts(convert, value) implies scores@ == Seq::new(
            (time_steps * size) as nat,
            |i: int| chunk_score(raw@, size as int, blank as int, from as int, to as int, value, sure, never, i),
        ) by {
            assert(scores@ =~= Seq::new(
                (time_steps * size) as nat,
                |i: int| chunk_score(raw@, size as int, blank as int, from as int, to as int, value, sure, never, i),
            ));
        }
    }
    scores
}

/// The scores of the frames from `from` up to `to`, from the model's raw output.
pub fn trimmed_scores<T: Copy, F: Fn(u8) -> T>(
    raw: &Vec<u8>,
    size: usize,
    time_steps: usize,
    from: usize,
    to: usize,
    convert: F,
) -> (scores: Vec<T>)
    requires
        raw.len() >= time_steps * size,
        from <= lower(to as int, time_steps as int),
        convert_callable(convert),
    ensures
        forall|value: spec_fn(u8) -> T| #[trigger]
            converts(convert, value) ==> scores@ == frames_between(
                raw@,
                size as int,
                from as int,
                lower(to as int, time_steps as int),
            ).map_values(value),
{
    let end: usize = if to < time_steps {
        to
    } else {
        time_steps
    };
    let mut bytes: Vec<u8> = Vec::new();
    append_frames(&mut bytes, raw, size, from, end);
    assert(bytes@ =~= frames_between(raw@, size as int, from as int, end as int));
    let mut scores: Vec<T> = Vec::new();
    let mut k: usize = 0;
    while k < bytes.len()
        invariant
            k <= bytes.len(),
            scores.len() == k,
            convert_callable(convert),
            forall|value: spec_fn(u8) -> T| #[trigger]
                converts(convert, value) ==> forall|i: int| 0 <= i < k ==> #[trigger] scores[i] == value(bytes[i]),
        decreases bytes.len() - k,
    {
        let score = convert(bytes[k]);
        scores.push(score);
        k = k + 1;
    }
    proof {
        assert forall|value: spec_fn(u8) -> T| #[trigger] converts(convert, value) implies scores@
            == bytes@.map_values(value) by {
            assert(scores@ =~= bytes@.map_values(value));
        }
    }
    scores
}

/// A line that is read in several chunks has as many frames as it has widths of
/// its first chunk times the model's frames, to the nearest.
pub proof fn law_total_is_nearest(bounds: Seq<(u32, u32)>, time_steps: int)
    requires
        bounds.len() >= 2,
        bounds[0].0 < bounds[0].1,
        0 <= time_steps,
    ensures
        ({
            let width = bounds[0].1 - bounds[0].0;
            let exact = 2 * (bounds.last().1 * time_steps);
            exact - width <= 2 * (width * expected_total(bounds, time_steps)) <= exact + width
        }),
{
    let width = bounds[0].1 - bounds[0].0;
    let a = bounds.last().1 * time_steps;
    let r = rounded(a, width);
    assert(2 * a - width <= 2 * (width * r) <= 2 * a + width) by (nonlinear_arith)
        requires
            0 < width,
            r == (2 * a + width) / (2 * width),
    ;
}

proof fn lemma_frames_at<T>(scores: Seq<T>, size: int, from: int, to: int, t: int, c: int)
    requires
        0 < size,
        0 <= from <= t < to,
        0 <= c < size,
        scores.len() >= to * size,
    ensures
        0 <= (t - from) * size + c < frames_between(scores, size, from, to).len(),
        frames_between(scores, size, from, to)[(t - from) * size + c] == scores[t * size + c],
    decreases to - from,
{
    lemma_frames_len(scores, size, from, to);
    assert(to * size == (to - 1) * size + size) by (nonlinear_arith);
    assert(0 <= (t - from) * size && (t - from) * size + size <= (to - from) * size && 0 <= (to - 1) * size)
        by (nonlinear_arith)
        requires
            0 < size,
            0 <= from <= t < to,
    ;
    lemma_frames_len(scores, size, from, to - 1);
    if t < to - 1 {
        lemma_frames_at(scores, size, from, to - 1, t, c);
    }
}

/// The frames that are given before chunk `i`, where there are enough.
spec fn plain_before(time_steps: int, i: int) -> int {
    if i <= 0 {
        0
    } else {
        7 * time_steps / 10 + (i - 1) * (4 * time_steps / 10)
    }
}

proof fn lemma_plain_before(total: int, time_steps: int, n: int, i: int)
    requires
        0 <= i < n,
        0 <= time_steps,
        plain_before(time_steps, i) <= total,
    ensures
        given_before(total, time_steps, i) == plain_before(time_steps, i),
        total_given(total, time_steps, n, i) == plain_before(time_steps, i),
        0 <= plain_before(time_steps, i),
        i > 0 ==> plain_before(time_steps, i - 1) <= plain_before(time_steps, i),
    decreases i,
{
    let middle = 4 * time_steps / 10;
    if i > 0 {
        assert((i - 1) * middle == (i - 2) * middle + middle) by (nonlinear_arith);
        assert(0 * middle == 0) by (nonlinear_arith);
        assert(plain_before(time_steps, i - 1) <= plain_before(time_steps, i));
        lemma_plain_before(total, time_steps, n, i - 1);
        assert(plain_before(time_steps, i) == plain_before(time_steps, i - 1) + wanted(time_steps, i - 1));
    }
}

/// Where the frames of a line in several chunks come from. The first chunk gives
/// its first seven tenths. A later one is read from three tenths on, to the nearest
/// frame, and gives four tenths; the last one gives what the line still lacks.
pub proof fn law_merged_frames<T>(
    chunks: Seq<Seq<T>>,
    size: int,
    time_steps: int,
    total: int,
    i: int,
    from: int,
    t: int,
    c: int,
)
    requires
        0 < size,
        0 <= time_steps,
        chunks.len() >= 2,
        forall|p: int| 0 <= p < chunks.len() ==> (#[trigger] chunks[p]).len() >= time_steps * size,
        0 <= i < chunks.len(),
        i == 0 ==> from == 0,
        i > 0 ==> 3 * time_steps - 5 < 10 * from <= 3 * time_steps + 5,
        ({
            let before = if i == 0 {
                0
            } else {
                7 * time_steps / 10 + (i - 1) * (4 * time_steps / 10)
            };
            let given = if i == chunks.len() - 1 {
                total - before
            } else if i == 0 {
                7 * time_steps / 10
            } else {
                4 * time_steps / 10
            };
            before + given <= total && from <= t < from + given
        }),
        t < time_steps,
        0 <= c < size,
    ensures
        ({
            let before = if i == 0 {
                0
            } else {
                7 * time_steps / 10 + (i - 1) * (4 * time_steps / 10)
            };
            let all = merged(chunks, size, time_steps, total, chunks.len() as int);
            let at = (before + t - from) * size + c;
            0 <= at < all.len() && all[at] == chunks[i][t * size + c]
        }),
{
    let n = chunks.len() as int;
    let before = plain_before(time_steps, i);
    lemma_plain_before(total, time_steps, n, i);
    if i < n - 1 {
        lemma_plain_before_next(time_steps, i);
        lemma_plain_before(total, time_steps, n, i + 1);
    }
    let (start, to) = taken(total, time_steps, n, i);
    law_three_tenths_are_passed_over(time_steps);
    assert(start == from);
    assert(t < to);
    law_merged_is_whole_frames(chunks, size, time_steps, total, i);
    lemma_merged_at(chunks, size, time_steps, total, i, before, t, c);
}

proof fn lemma_merged_at<T>(
    chunks: Seq<Seq<T>>,
    size: int,
    time_steps: int,
    total: int,
    i: int,
    before: int,
    t: int,
    c: int,
)
    requires
        0 < size,
        0 <= before,
        0 <= i < chunks.len(),
        chunks[i].len() >= time_steps * size,
        merged(chunks, size, time_steps, total, i).len() == before * size,
        ({
            let (from, to) = taken(total, time_steps, chunks.len() as int, i);
            0 <= from <= t < to <= time_steps
        }),
        0 <= c < size,
    ensures
        ({
            let from = taken(total, time_steps, chunks.len() as int, i).0;
            let all = merged(chunks, size, time_steps, total, chunks.len() as int);
            let at = (before + t - from) * size + c;
            0 <= at < all.len() && all[at] == chunks[i][t * size + c]
        }),
{
    let n = chunks.len() as int;
    let (from, to) = taken(total, time_steps, n, i);
    assert(to * size <= time_steps * size) by (nonlinear_arith)
        requires
            0 < size,
            to <= time_steps,
    ;
    lemma_frames_at(chunks[i], size, from, to, t, c);
    let prior = merged(chunks, size, time_steps, total, i);
    let added = frames_between(chunks[i], size, from, to);
    let part = merged(chunks, size, time_steps, total, i + 1);
    assert(part == prior + added);
    let within = (t - from) * size + c;
    let at = (before + t - from) * size + c;
    assert(at == before * size + within) by (nonlinear_arith)
        requires
            at == (before + t - from) * size + c,
            within == (t - from) * size + c,
    ;
    assert(0 <= before * size) by (nonlinear_arith)
        requires
            0 <= before,
            0 < size,
    ;
    assert(part[at] == added[within]);
    lemma_merged_grows(chunks, size, time_steps, total, i + 1, n);
    assert(merged(chunks, size, time_steps, total, n).take(part.len() as int)[at] == part[at]);
}

proof fn lemma_plain_before_next(time_steps: int, i: int)
    requires
        0 <= i,
    ensures
        plain_before(time_steps, i + 1) == plain_before(time_steps, i) + wanted(time_steps, i),
{
    let middle = 4 * time_steps / 10;
    assert(i * middle == (i - 1) * middle + middle) by (nonlinear_arith);
    assert(0 * middle == 0) by (nonlinear_arith);
}

proof fn lemma_merged_grows<T>(chunks: Seq<Seq<T>>, size: int, time_steps: int, total: int, k: int, n: int)
    requires
        0 <= k <= n <= chunks.len(),
    ensures
        merged(chunks, size, time_steps, total, k).len() <= merged(chunks, size, time_steps, total, n).len(),
        merged(chunks, size, time_steps, total, n).take(merged(chunks, size, time_steps, total, k).len() as int)
            == merged(chunks, size, time_steps, total, k),
    decreases n,
{
    let part = merged(chunks, size, time_steps, total, k);
    if k < n {
        lemma_merged_grows(chunks, size, time_steps, total, k, n - 1);
        let fewer = merged(chunks, size, time_steps, total, n - 1);
        assert(merged(chunks, size, time_steps, total, n).take(part.len() as int) =~= fewer.take(part.len() as int));
    } else {
        assert(part.take(part.len() as int) =~= part);
    }
}

/// Of a later chunk three tenths of the frames are passed over, to the nearest
/// frame.
pub proof fn law_three_tenths_are_passed_over(time_steps: int)
    ensures
        3 * time_steps - 5 < 10 * passed_over(time_steps) <= 3 * time_steps + 5,
{
    let skip = passed_over(time_steps);
    assert(3 * time_steps - 5 < 10 * skip <= 3 * time_steps + 5) by (nonlinear_arith)
        requires
            skip == (6 * time_steps + 10) / 20,
    ;
}

/// Neighbouring chunks meet. Let each chunk begin two fifths of a chunk behind the
/// one before it, and let frame `t` of a chunk stand for the `t`-th of equal parts
/// of its columns. Then a chunk is read on from the place where the chunk before it
/// stopped, give or take a frame and a half: nothing more is read twice or passed
/// over. Places are counted in tenths of a frame from the start of chunk `i`.
pub proof fn law_chunks_meet(time_steps: int, total: int, n: int, i: int)
    requires
        0 <= time_steps,
        0 <= i < n - 1,
        7 * time_steps / 10 + i * (4 * time_steps / 10) <= total,
    ensures
        ({
            let stop = 10 * taken(total, time_steps, n, i).1;
            let go_on = 4 * time_steps + 10 * taken(total, time_steps, n, i + 1).0;
            go_on - 15 <= stop <= go_on + 15
        }),
        taken(total, time_steps, n, 0).0 == 0,
{
    assert(plain_before(time_steps, i + 1) <= total);
    lemma_plain_before(total, time_steps, n, i + 1);
    lemma_plain_before_next(time_steps, i);
    lemma_plain_before(total, time_steps, n, i);
    let skip = passed_over(time_steps);
    law_three_tenths_are_passed_over(time_steps);
    assert(0 <= skip <= time_steps);
    assert(share(total, time_steps, n, i) == wanted(time_steps, i));
    if i == 0 {
        assert(taken(total, time_steps, n, i).1 == 7 * time_steps / 10);
    } else {
        assert(skip + 4 * time_steps / 10 <= time_steps);
        assert(taken(total, time_steps, n, i).1 == skip + 4 * time_steps / 10);
    }
}

/// The inner frames of chunks, put together: where chunk `i` meets another it
/// lacks `border` frames, and its frame `t` stands behind those of the chunks
/// before it.
pub proof fn law_inner_frames<T>(
    chunks: Seq<Seq<T>>,
    size: int,
    time_steps: int,
    border: int,
    i: int,
    t: int,
    c: int,
)
    requires
        0 < size,
        0 <= 2 * border <= time_steps,
        chunks.len() >= 2,
        forall|p: int| 0 <= p < chunks.len() ==> (#[trigger] chunks[p]).len() >= time_steps * size,
        0 <= i < chunks.len(),
        (if i == 0 {
            0
        } else {
            border
        }) <= t < (if i == chunks.len() - 1 {
            time_steps
        } else {
            time_steps - border
        }),
        0 <= c < size,
    ensures
        ({
            let all = merged_inner(chunks, size, time_steps, border, chunks.len() as int);
            let at = (i * (time_steps - 2 * border) + t) * size + c;
            0 <= at < all.len() && all[at] == chunks[i][t * size + c]
        }),
        merged_inner(chunks, size, time_steps, border, chunks.len() as int).len() == (chunks.len() * (time_steps - 2
            * border) + 2 * border) * size,
{
    let n = chunks.len() as int;
    lemma_inner_len(chunks, size, time_steps, border, i);
    lemma_inner_len(chunks, size, time_steps, border, i + 1);
    lemma_inner_len(chunks, size, time_steps, border, n);
    let (from, to) = inner(time_steps, border, n, i);
    assert(to * size <= time_steps * size) by (nonlinear_arith)
        requires
            0 < size,
            to <= time_steps,
    ;
    lemma_frames_at(chunks[i], size, from, to, t, c);
    let step = time_steps - 2 * border;
    let before = if i == 0 {
        0
    } else {
        i * step + border
    };
    assert((i * step + t) * size == before * size + (t - from) * size) by (nonlinear_arith)
        requires
            before == (if i == 0 {
                0
            } else {
                i * step + border
            }),
            from == (if i == 0 {
                0
            } else {
                border
            }),
    ;
    assert(0 <= before * size) by (nonlinear_arith)
        requires
            before == (if i == 0 {
                0
            } else {
                i * step + border
            }),
            0 <= i,
            0 <= step,
            0 <= border,
            0 < size,
    ;
    let part = merged_inner(chunks, size, time_steps, border, i + 1);
    let at = (i * step + t) * size + c;
    assert(part[at] == chunks[i][t * size + c]);
    lemma_inner_grows(chunks, size, time_steps, border, i + 1, n);
    assert(merged_inner(chunks, size, time_steps, border, n).take(part.len() as int)[at] == part[at]);
}

proof fn lemma_inner_len<T>(chunks: Seq<Seq<T>>, size: int, time_steps: int, border: int, k: int)
    requires
        0 < size,
        0 <= 2 * border <= time_steps,
        chunks.len() >= 2,
        forall|p: int| 0 <= p < chunks.len() ==> (#[trigger] chunks[p]).len() >= time_steps * size,
        0 <= k <= chunks.len(),
    ensures
        merged_inner(chunks, size, time_steps, border, k).len() == (if k == 0 {
            0
        } else {
            k * (time_steps - 2 * border) + border + (if k == chunks.len() {
                border
            } else {
                0
            })
        }) * size,
    decreases k,
{
    let n = chunks.len() as int;
    let step = time_steps - 2 * border;
    if k > 0 {
        lemma_inner_len(chunks, size, time_steps, border, k - 1);
        let (from, to) = inner(time_steps, border, n, k - 1);
        assert(to * size <= time_steps * size) by (nonlinear_arith)
            requires
                0 < size,
                to <= time_steps,
        ;
        lemma_frames_len(chunks[k - 1], size, from, to);
        let before = if k == 1 {
            0
        } else {
            (k - 1) * step + border
        };
        let after = k * step + border + (if k == n {
            border
        } else {
            0
        });
        assert(k * step == (k - 1) * step + step && (k == 1 ==> k * step == step)) by (nonlinear_arith);
        assert(after == before + (to - from));
        assert(after * size == before * size + (to - from) * size) by (nonlinear_arith)
            requires
                after == before + (to - from),
        ;
    } else {
        assert(0 * size == 0) by (nonlinear_arith);
    }
}

proof fn lemma_inner_grows<T>(chunks: Seq<Seq<T>>, size: int, time_steps: int, border: int, k: int, n: int)
    requires
        0 <= k <= n <= chunks.len(),
    ensures
        merged_inner(chunks, size, time_steps, border, k).len() <= merged_inner(chunks, size, time_steps, border, n).len(),
        merged_inner(chunks, size, time_steps, border, n).take(
            merged_inner(chunks, size, time_steps, border, k).len() as int,
        ) == merged_inner(chunks, size, time_steps, border, k),
    decreases n,
{
    let part = merged_inner(chunks, size, time_steps, border, k);
    if k < n {
        lemma_inner_grows(chunks, size, time_steps, border, k, n - 1);
        let fewer = merged_inner(chunks, size, time_steps, border, n - 1);
        assert(merged_inner(chunks, size, time_steps, border, n).take(part.len() as int) =~= fewer.take(
            part.len() as int,
        ));
    } else {
        assert(part.take(part.len() as int) =~= part);
    }
}

} // verus!
