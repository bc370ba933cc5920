//! Reading text from the scores of a line's frames.
//!
//! In each frame the symbol with the highest score wins. A symbol that wins in
//! several frames running is one character, and the blank is none.

use vstd::prelude::*;

use crate::chars;
use crate::ordering::Ordinal;
use crate::paths;
use crate::position;
use crate::position::{CharWithPosition, Placed};
use crate::recognizer::{LineRecognizer, FRAME_WIDTH};

verus! {

/// The ordinal below all numbers' ordinals, that of minus infinity.
pub const LOWEST: Ordinal = -0x7F80_0000;

/// The first of the best symbols among the first `k` scores from `base` on, with
/// its score; the first symbol if no score is above the lowest.
pub open spec fn winner(scores: Seq<Ordinal>, base: int, k: int) -> (int, Ordinal)
    decreases k,
{
    if k <= 0 {
        (0, LOWEST)
    } else {
        let (best, most) = winner(scores, base, k - 1);
        if scores[base + k - 1] > most {
            (k - 1, scores[base + k - 1])
        } else {
            (best, most)
        }
    }
}

/// The symbol that wins frame `t`.
pub open spec fn symbol(scores: Seq<Ordinal>, size: int, t: int) -> int {
    winner(scores, t * size, size).0
}

/// The symbols that win the frames.
pub open spec fn symbols(scores: Seq<Ordinal>, size: int) -> Seq<int> {
    Seq::new((scores.len() as int / size) as nat, |t: int| symbol(scores, size, t))
}

/// A new character begins in frame `t`: its symbol is not the blank, nor that of
/// the frame before.
pub open spec fn begins(won: Seq<int>, blank: int, t: int) -> bool {
    won[t] != blank && (t == 0 || won[t] != won[t - 1])
}

/// The symbol of frame `t` is a character of the vocabulary, with enough
/// confidence.
pub open spec fn is_read(won: Seq<int>, confs: Seq<Ordinal>, vocab: Seq<String>, least: Ordinal, t: int) -> bool {
    confs[t] >= least && won[t] < vocab.len() && vocab[won[t]]@.len() > 0
}

/// Those of the first `k` frames in which a character begins that is read.
pub open spec fn read_frames(
    won: Seq<int>,
    confs: Seq<Ordinal>,
    vocab: Seq<String>,
    blank: int,
    least: Ordinal,
    k: int,
) -> Seq<usize>
    decreases k,
{
    if k <= 0 {
        Seq::empty()
    } else {
        let before = read_frames(won, confs, vocab, blank, least, k - 1);
        if begins(won, blank, k - 1) && is_read(won, confs, vocab, least, k - 1) {
            before.push((k - 1) as usize)
        } else {
            before
        }
    }
}

/// The text of the first `k` of the given symbols; a symbol beyond the
/// vocabulary has none.
pub open spec fn spelling(vocab: Seq<String>, spelled: Seq<int>, k: int) -> Seq<char>
    decreases k,
{
    if k <= 0 {
        Seq::empty()
    } else if spelled[k - 1] < vocab.len() {
        spelling(vocab, spelled, k - 1) + vocab[spelled[k - 1]]@
    } else {
        spelling(vocab, spelled, k - 1)
    }
}

/// The symbols of the given frames.
pub open spec fn symbols_at(won: Seq<int>, frames: Seq<usize>) -> Seq<int> {
    Seq::new(frames.len(), |p: int| won[frames[p] as int])
}

fn find_winner(scores: &Vec<Ordinal>, base: usize, size: usize) -> (best: usize)
    requires
        base + size <= scores.len(),
        size > 0,
    ensures
        best == winner(scores@, base as int, size as int).0,
        best < size,
{
    let mut best: usize = 0;
    let mut most: Ordinal = LOWEST;
    let mut k: usize = 0;
    while k < size
        invariant
            k <= size,
            size > 0,
            base + size <= scores.len(),
            best < size,
            (best as int, most) == winner(scores@, base as int, k as int),
        decreases size - k,
    {
        if scores[base + k] > most {
            most = scores[base + k];
            best = k;
        }
        k = k + 1;
    }
    best
}

/// The symbols that win the frames.
pub fn winning_symbols(scores: &Vec<Ordinal>, size: usize) -> (won: Vec<usize>)
    requires
        size > 0,
    ensures
        won.len() == scores.len() as int / size as int,
        forall|t: int| 0 <= t < won.len() ==> #[trigger] won[t] == symbols(scores@, size as int)[t] && won[t] < size,
{
    let total: usize = scores.len() / size;
    let mut won: Vec<usize> = Vec::new();
    let mut base: usize = 0;
    assert(total * size <= scores.len()) by (nonlinear_arith)
        requires
            total == scores.len() as int / size as int,
            size > 0,
    ;
    while won.len() < total
        invariant
            size > 0,
            total == scores.len() as int / size as int,
            total * size <= scores.len(),
            won.len() <= total,
            base == won.len() * size,
            forall|t: int| 0 <= t < won.len() ==> #[trigger] won[t] == symbols(scores@, size as int)[t] && won[t] < size,
        decreases total - won.len(),
    {
        let ghost t = won.len() as int;
        assert((t + 1) * size <= total * size && (t + 1) * size == t * size + size) by (nonlinear_arith)
            requires
                t + 1 <= total,
                size > 0,
        ;
        let best = find_winner(scores, base, size);
        won.push(best);
        base = base + size;
    }
    won
}

fn find_read_frames(
    won: &Vec<usize>,
    confs: &Vec<Ordinal>,
    vocab: &Vec<String>,
    blank: usize,
    least: Ordinal,
    model: Ghost<Seq<int>>,
) -> (frames: Vec<usize>)
    requires
        confs.len() == won.len(),
        model@.len() == won.len(),
        forall|t: int| 0 <= t < won.len() ==> #[trigger] won[t] == model@[t],
    ensures
        frames@ == read_frames(model@, confs@, vocab@, blank as int, least, won.len() as int),
        forall|p: int| 0 <= p < frames.len() ==> (#[trigger] frames[p]) < won.len() && won[frames[p] as int] < vocab.len(),
{
    let mut frames: Vec<usize> = Vec::new();
    let mut t: usize = 0;
    while t < won.len()
        invariant
            t <= won.len(),
            confs.len() == won.len(),
            model@.len() == won.len(),
            forall|u: int| 0 <= u < won.len() ==> #[trigger] won[u] == model@[u],
            frames@ == read_frames(model@, confs@, vocab@, blank as int, least, t as int),
            forall|p: int|
                0 <= p < frames.len() ==> (#[trigger] frames[p]) < won.len() && won[frames[p] as int] < vocab.len(),
        decreases won.len() - t,
    {
        let c = won[t];
        if c != blank && (t == 0 || c != won[t - 1]) && confs[t] >= least && c < vocab.len()
            && !vocab[c].as_str().is_empty() {
            frames.push(t);
        }
        t = t + 1;
    }
    frames
}

impl LineRecognizer {
    /// The frames that greedy reading takes characters from.
    pub open spec fn greedy_frames(&self, scores: Seq<Ordinal>, confs: Seq<Ordinal>) -> Seq<usize> {
        let won = symbols(scores, self.vocab_size as int);
        read_frames(won, confs, self.vocab@, self.blank_idx as int, self.threshold(), won.len() as int)
    }

    /// The text that greedy reading gives.
    pub open spec fn greedy_text(&self, scores: Seq<Ordinal>, confs: Seq<Ordinal>) -> Seq<char> {
        let frames = self.greedy_frames(scores, confs);
        spelling(
            self.vocab@,
            symbols_at(symbols(scores, self.vocab_size as int), frames),
            frames.len() as int,
        )
    }

    /// Reads the text of frames greedily. `scores` holds the scores of all frames,
    /// `confs` the confidence of each frame's winner. Returns the text and the
    /// frames that its characters were taken from.
    pub fn ctc_decode_logits(&self, scores: &Vec<Ordinal>, confs: &Vec<Ordinal>) -> (read: (String, Vec<usize>))
        requires
            self.wf(),
            confs.len() == scores.len() as int / self.vocab_size as int,
        ensures
            read.0@ == self.greedy_text(scores@, confs@),
            read.1@ == self.greedy_frames(scores@, confs@),
    {
        let won = winning_symbols(scores, self.vocab_size);
        let ghost model = symbols(scores@, self.vocab_size as int);
        let least = self.char_conf_threshold();
        let frames = find_read_frames(&won, confs, &self.vocab, self.blank_idx, least, Ghost(model));
        let ghost spelled = symbols_at(model, frames@);
        let mut text = String::new();
        let mut p: usize = 0;
        assert(text@ =~= Seq::empty());
        while p < frames.len()
            invariant
                p <= frames.len(),
                won.len() == model.len(),
                spelled == symbols_at(model, frames@),
                forall|t: int| 0 <= t < won.len() ==> #[trigger] won[t] == model[t],
                forall|q: int|
                    0 <= q < frames.len() ==> (#[trigger] frames[q]) < won.len() && won[frames[q] as int] < self.vocab.len(),
                text@ == spelling(self.vocab@, spelled, p as int),
            decreases frames.len() - p,
        {
            let c = won[frames[p]];
            assert(spelled[p as int] == c);
            chars::append_text(&mut text, &self.vocab[c]);
            p = p + 1;
        }
        (text, frames)
    }

    /// The text of a prefix that a beam search found; symbols beyond the
    /// vocabulary have none.
    pub fn spell(&self, prefix: &Vec<usize>) -> (text: String)
        ensures
            text@ == spelling(self.vocab@, prefix@.map_values(|c: usize| c as int), prefix.len() as int),
    {
        let ghost spelled = prefix@.map_values(|c: usize| c as int);
        let mut text = String::new();
        let mut p: usize = 0;
        assert(text@ =~= Seq::empty());
        while p < prefix.len()
            invariant
                p <= prefix.len(),
                spelled == prefix@.map_values(|c: usize| c as int),
                text@ == spelling(self.vocab@, spelled, p as int),
            decreases prefix.len() - p,
        {
            let c = prefix[p];
            if c < self.vocab.len() {
                chars::append_text(&mut text, &self.vocab[c]);
            }
            p = p + 1;
        }
        text
    }

    /// The character read from frame `t`, at the columns `span` of its chunk.
    pub open spec fn placed_char(
        &self,
        scores: Seq<Ordinal>,
        confs: Seq<Ordinal>,
        t: int,
        span: (u32, u32),
        offset: u32,
    ) -> Placed {
        Placed {
            text: self.vocab@[symbol(scores, self.vocab_size as int, t)]@,
            conf: confs[t],
            x0: span.0 + offset,
            x1: span.1 + offset,
            time_step: t,
        }
    }

    /// Where frame `t` begins in a chunk of `w` columns that was scaled to `new_w`:
    /// the frame's first column in the model's input, without the margin and kept
    /// within the content, at the chunk's own scale.
    pub open spec fn frame_start(&self, t: int, new_w: int, w: int) -> int {
        let x = FRAME_WIDTH * t - self.left_margin;
        (if x < 0 {
            0
        } else if x > new_w {
            new_w
        } else {
            x
        }) * w / new_w
    }

    fn start_of_frame(&self, t: usize, new_w: u32, w: u32) -> (x: u32)
        requires
            0 < new_w,
            t <= usize::MAX / 4,
        ensures
            x == self.frame_start(t as int, new_w as int, w as int),
            x <= w,
    {
        let place: u64 = FRAME_WIDTH as u64 * t as u64;
        let margin: u64 = self.left_margin as u64;
        let content: u64 = if place < margin {
            0
        } else if place - margin > new_w as u64 {
            new_w as u64
        } else {
            place - margin
        };
        proof {
            lemma_part_of_width(content as int, new_w as int, w as int);
            assert(new_w * w <= 0xffff_ffff * 0xffff_ffff) by (nonlinear_arith)
                requires
                    0 <= new_w <= 0xffff_ffff,
                    0 <= w <= 0xffff_ffff,
            ;
        }
        (content * w as u64 / new_w as u64) as u32
    }

    /// The columns that frame `t` shows of a chunk of `w` columns that was scaled to
    /// `new_w`.
    pub fn frame_span(&self, t: usize, new_w: u32, w: u32) -> (span: (u32, u32))
        requires
            0 < new_w,
            t < usize::MAX / 4,
        ensures
            span.0 == self.frame_start(t as int, new_w as int, w as int),
            span.1 == self.frame_start(t + 1, new_w as int, w as int),
            span.0 <= span.1 <= w,
    {
        proof {
            self.law_frames_cover_the_chunk(t as int, t + 1, new_w as int, w as int);
        }
        (self.start_of_frame(t, new_w, w), self.start_of_frame(t + 1, new_w, w))
    }

    /// The frames of a chunk lie from left to right, each where the one before it
    /// ends, from its first column to its last: the first begins at the first column,
    /// and one behind the content ends at the last.
    pub proof fn law_frames_cover_the_chunk(&self, a: int, b: int, new_w: int, w: int)
        requires
            0 < new_w,
            0 <= w,
            0 <= a <= b,
        ensures
            0 <= self.frame_start(a, new_w, w) <= self.frame_start(b, new_w, w) <= w,
            self.frame_start(0, new_w, w) == 0,
            FRAME_WIDTH * b >= self.left_margin + new_w ==> self.frame_start(b, new_w, w) == w,
    {
        let place = |t: int| -> int
            {
                let x = FRAME_WIDTH * t - self.left_margin;
                if x < 0 {
                    0
                } else if x > new_w {
                    new_w
                } else {
                    x
                }
            };
        lemma_part_of_width(place(a), new_w, w);
        lemma_part_of_width(place(b), new_w, w);
        assert(place(a) * w / new_w <= place(b) * w / new_w) by (nonlinear_arith)
            requires
                0 <= place(a) <= place(b),
                0 <= w,
                0 < new_w,
        ;
        assert(new_w * w / new_w == w) by (nonlinear_arith)
            requires
                0 < new_w,
        ;
        assert(0int * w / new_w == 0) by (nonlinear_arith)
            requires
                0 < new_w,
        ;
    }

    /// Reads the characters of a chunk's frames greedily, with their places.
    /// `spans` tells the columns of each frame within the chunk (`frame_span`),
    /// `offset` where the chunk begins.
    pub fn recognize_segment_with_positions(
        &self,
        scores: &Vec<Ordinal>,
        confs: &Vec<Ordinal>,
        spans: &Vec<(u32, u32)>,
        offset: u32,
    ) -> (read: Vec<CharWithPosition>)
        requires
            self.wf(),
            confs.len() == scores.len() as int / self.vocab_size as int,
            spans.len() == confs.len(),
            forall|t: int|
                0 <= t < spans.len() ==> (#[trigger] spans[t]).0 + offset <= u32::MAX && spans[t].1 + offset <= u32::MAX,
        ensures
            position::placed(read@) == Seq::new(
                self.greedy_frames(scores@, confs@).len(),
                |p: int|
                    {
                        let t = self.greedy_frames(scores@, confs@)[p] as int;
                        self.placed_char(scores@, confs@, t, spans[t], offset)
                    },
            ),
    {
        let won = winning_symbols(scores, self.vocab_size);
        let ghost model = symbols(scores@, self.vocab_size as int);
        let least = self.char_conf_threshold();
        let frames = find_read_frames(&won, confs, &self.vocab, self.blank_idx, least, Ghost(model));
        let mut read: Vec<CharWithPosition> = Vec::new();
        while read.len() < frames.len()
            invariant
                read.len() <= frames.len(),
                won.len() == model.len(),
                spans.len() == won.len(),
                confs.len() == won.len(),
                model == symbols(scores@, self.vocab_size as int),
                forall|t: int| 0 <= t < won.len() ==> #[trigger] won[t] == model[t],
                forall|q: int|
                    0 <= q < frames.len() ==> (#[trigger] frames[q]) < won.len() && won[frames[q] as int] < self.vocab.len(),
                forall|t: int|
                    0 <= t < spans.len() ==> (#[trigger] spans[t]).0 + offset <= u32::MAX && spans[t].1 + offset
                        <= u32::MAX,
                forall|p: int|
                    0 <= p < read.len() ==> (#[trigger] read[p])@ == self.placed_char(
                        scores@,
                        confs@,
                        frames[p] as int,
                        spans[frames[p] as int],
                        offset,
                    ),
            decreases frames.len() - read.len(),
        {
            let t = frames[read.len()];
            let span = spans[t];
            assert(span == spans[t as int]);
            read.push(
                CharWithPosition {
                    text: self.vocab[won[t]].clone(),
                    conf: confs[t],
                    x0: span.0 + offset,
                    x1: span.1 + offset,
                    time_step: t,
                },
            );
        }
        assert(position::placed(read@) =~= Seq::new(
            self.greedy_frames(scores@, confs@).len(),
            |p: int|
                {
                    let t = self.greedy_frames(scores@, confs@)[p] as int;
                    self.placed_char(scores@, confs@, t, spans[t], offset)
                },
        ));
        read
    }
}

proof fn lemma_part_of_width(x: int, new_w: int, w: int)
    requires
        0 <= x <= new_w,
        0 < new_w,
        0 <= w,
    ensures
        0 <= x * w / new_w <= w,
        0 <= x * w <= new_w * w,
{
    assert(0 <= x * w <= new_w * w) by (nonlinear_arith)
        requires
            0 <= x <= new_w,
            0 <= w,
    ;
    assert(0 <= x * w / new_w <= w) by (nonlinear_arith)
        requires
            0 <= x * w <= new_w * w,
            0 < new_w,
    ;
}

/// The winner's score is the highest of its frame, if any is above the lowest.
pub proof fn law_winner_is_best(scores: Seq<Ordinal>, base: int, k: int, i: int)
    requires
        0 <= i < k,
    ensures
        scores[base + i] <= winner(scores, base, k).1,
        0 <= winner(scores, base, k).0 < k,
        winner(scores, base, k).1 > LOWEST ==> scores[base + winner(scores, base, k).0] == winner(scores, base, k).1,
    decreases k,
{
    if k == 1 {
        assert(winner(scores, base, 0) == (0int, LOWEST));
    } else {
        if i < k - 1 {
            law_winner_is_best(scores, base, k - 1, i);
        } else {
            law_winner_is_best(scores, base, k - 1, 0);
        }
    }
}

/// A frame with the blank, or with the symbol of the frame before it, adds no
/// character.
pub proof fn law_held_frames_add_nothing(
    won: Seq<int>,
    confs: Seq<Ordinal>,
    vocab: Seq<String>,
    blank: int,
    least: Ordinal,
    k: int,
)
    requires
        0 < k <= won.len(),
        won[k - 1] == blank || k > 1 && won[k - 1] == won[k - 2],
    ensures
        read_frames(won, confs, vocab, blank, least, k) == read_frames(won, confs, vocab, blank, least, k - 1),
{
}

/// The frames of the characters come in order, each once, and in none of them
/// the blank wins.
pub proof fn law_read_frames_ascend(
    won: Seq<int>,
    confs: Seq<Ordinal>,
    vocab: Seq<String>,
    blank: int,
    least: Ordinal,
    k: int,
)
    requires
        0 <= k <= won.len() <= usize::MAX,
    ensures
        ({
            let frames = read_frames(won, confs, vocab, blank, least, k);
            &&& forall|p: int| 0 <= p < frames.len() ==> (#[trigger] frames[p]) < k && won[frames[p] as int] != blank
            &&& forall|p: int, q: int| 0 <= p < q < frames.len() ==> (#[trigger] frames[p]) < (#[trigger] frames[q])
        }),
    decreases k,
{
    if k > 0 {
        law_read_frames_ascend(won, confs, vocab, blank, least, k - 1);
        let before = read_frames(won, confs, vocab, blank, least, k - 1);
        let frames = read_frames(won, confs, vocab, blank, least, k);
        assert forall|p: int| 0 <= p < frames.len() implies (#[trigger] frames[p]) < k && won[frames[p] as int] != blank by {
            if p < before.len() {
                assert(frames[p] == before[p]);
            }
        }
        assert forall|p: int, q: int| 0 <= p < q < frames.len() implies (#[trigger] frames[p]) < (#[trigger] frames[q]) by {
            assert(frames[p] == before[p]);
            if q < before.len() {
                assert(frames[q] == before[q]);
            }
        }
    }
}

proof fn lemma_winner_is(scores: Seq<Ordinal>, base: int, size: int, best: int, k: int)
    requires
        0 <= best < size,
        0 <= k <= size,
        scores[base + best] > -0x7F80_0000,
        forall|c: int| 0 <= c < best ==> #[trigger] scores[base + c] < scores[base + best],
        forall|c: int| best <= c < size ==> #[trigger] scores[base + c] <= scores[base + best],
    ensures
        k <= best ==> winner(scores, base, k).1 < scores[base + best],
        k > best ==> winner(scores, base, k) == (best, scores[base + best]),
    decreases k,
{
    if k > 0 {
        lemma_winner_is(scores, base, size, best, k - 1);
        assert(scores[base + (k - 1)] == scores[base + k - 1]);
    }
}

/// `path` names the symbol with the highest score in each frame, the first of
/// several.
pub open spec fn is_best_path(scores: Seq<Ordinal>, size: int, path: Seq<usize>) -> bool {
    &&& path.len() == scores.len() as int / size
    &&& forall|t: int|
        0 <= t < path.len() ==> (#[trigger] path[t]) < size && scores[t * size + path[t]] > -0x7F80_0000
    &&& forall|t: int, c: int|
        0 <= t < path.len() && 0 <= c < size ==> #[trigger] scores[t * size + c] <= scores[t * size + path[t]]
    &&& forall|t: int, c: int|
        0 <= t < path.len() && 0 <= c < path[t] ==> #[trigger] scores[t * size + c] < scores[t * size + path[t]]
}

proof fn lemma_symbols_are_best(scores: Seq<Ordinal>, size: int, path: Seq<usize>, t: int)
    requires
        0 < size,
        is_best_path(scores, size, path),
        0 <= t < path.len(),
    ensures
        symbols(scores, size)[t] == path[t],
{
    let base = t * size;
    let best = path[t] as int;
    assert forall|c: int| 0 <= c < best implies #[trigger] scores[base + c] < scores[base + best] by {
        assert(scores[t * size + c] < scores[t * size + path[t]]);
    }
    assert forall|c: int| best <= c < size implies #[trigger] scores[base + c] <= scores[base + best] by {
        assert(scores[t * size + c] <= scores[t * size + path[t]]);
    }
    lemma_winner_is(scores, base, size, best, size);
}

proof fn lemma_read_frames_collapse(
    won: Seq<int>,
    path: Seq<usize>,
    confs: Seq<Ordinal>,
    vocab: Seq<String>,
    blank: usize,
    least: Ordinal,
    k: int,
)
    requires
        0 <= k <= path.len() <= usize::MAX,
        won.len() == path.len(),
        forall|t: int| 0 <= t < path.len() ==> #[trigger] won[t] == path[t],
        forall|t: int| 0 <= t < path.len() ==> #[trigger] confs[t] >= least,
        forall|t: int|
            0 <= t < path.len() && path[t] != blank ==> (#[trigger] path[t]) < vocab.len() && vocab[path[t] as int]@.len()
                > 0,
    ensures
        ({
            let frames = read_frames(won, confs, vocab, blank as int, least, k);
            let text = paths::collapsed(path.take(k), blank);
            &&& frames.len() == text.len()
            &&& forall|p: int| 0 <= p < frames.len() ==> (#[trigger] frames[p]) < k && won[frames[p] as int] == text[p]
        }),
    decreases k,
{
    if k > 0 {
        lemma_read_frames_collapse(won, path, confs, vocab, blank, least, k - 1);
        let before = read_frames(won, confs, vocab, blank as int, least, k - 1);
        let after = read_frames(won, confs, vocab, blank as int, least, k);
        let part = path.take(k);
        assert(part.drop_last() =~= path.take(k - 1));
        assert(part.last() == path[k - 1]);
        assert(won[k - 1] == path[k - 1]);
        assert(confs[k - 1] >= least);
        if k >= 2 {
            assert(part[part.len() - 2] == path[k - 2]);
            assert(won[k - 2] == path[k - 2]);
        }
        assert forall|p: int| 0 <= p < after.len() implies (#[trigger] after[p]) < k && won[after[p] as int]
            == paths::collapsed(part, blank)[p] by {
            if p < before.len() {
                assert(after[p] == before[p]);
            }
        }
    }
}

proof fn lemma_spelling_is_flat(vocab: Seq<String>, spelled: Seq<int>, k: int)
    requires
        0 <= k <= spelled.len(),
        forall|p: int| 0 <= p < spelled.len() ==> 0 <= (#[trigger] spelled[p]) < vocab.len(),
    ensures
        spelling(vocab, spelled, k) == Seq::new(k as nat, |p: int| vocab[spelled[p]]@).flatten(),
    decreases k,
{
    let all = Seq::new(k as nat, |p: int| vocab[spelled[p]]@);
    if k > 0 {
        lemma_spelling_is_flat(vocab, spelled, k - 1);
        let fewer = Seq::new((k - 1) as nat, |p: int| vocab[spelled[p]]@);
        assert(all =~= fewer.push(vocab[spelled[k - 1]]@));
        assert(0 <= spelled[k - 1] < vocab.len());
        chars::lemma_flatten_push(fewer, vocab[spelled[k - 1]]@);
    } else {
        assert(all =~= Seq::empty());
        assert(all.flatten() =~= Seq::empty());
    }
}

/// Greedy reading gives what the path of best symbols reads as: held symbols once,
/// blanks not at all, each symbol by its entry in the vocabulary. So it is where
/// every frame is confident enough, and every symbol but the blank, the last one,
/// has an entry.
pub proof fn law_greedy_text_is_that_of_the_best_path(
    r: LineRecognizer,
    scores: Seq<Ordinal>,
    confs: Seq<Ordinal>,
    path: Seq<usize>,
)
    requires
        r.wf(),
        r.vocab.len() == r.vocab_size - 1,
        forall|c: int| 0 <= c < r.vocab.len() ==> (#[trigger] r.vocab[c])@.len() > 0,
        scores.len() <= usize::MAX,
        is_best_path(scores, r.vocab_size as int, path),
        forall|t: int|
            0 <= t < path.len() ==> #[trigger] confs[t] >= (if r.model_name@ == "gocr_mobile_und"@ {
                0int
            } else {
                0x3E19_999A
            }),
    ensures
        ({
            let text = paths::collapsed(path, (r.vocab_size - 1) as usize);
            &&& forall|p: int| 0 <= p < text.len() ==> (#[trigger] text[p]) < r.vocab.len()
            &&& r.greedy_text(scores, confs) == Seq::new(text.len(), |p: int| r.vocab[text[p] as int]@).flatten()
        }),
{
    let size = r.vocab_size as int;
    let blank = (r.vocab_size - 1) as usize;
    let won = symbols(scores, size);
    let n = path.len() as int;
    assert(n <= usize::MAX) by (nonlinear_arith)
        requires
            n == scores.len() as int / size,
            0 < size,
            scores.len() <= usize::MAX,
    ;
    assert forall|t: int| 0 <= t < n implies #[trigger] won[t] == path[t] by {
        lemma_symbols_are_best(scores, size, path, t);
    }
    assert(r.blank_idx == blank);
    lemma_read_frames_collapse(won, path, confs, r.vocab@, blank, r.threshold(), n);
    assert(path.take(n) =~= path);
    let frames = r.greedy_frames(scores, confs);
    let spelled = symbols_at(won, frames);
    let text = paths::collapsed(path, blank);
    paths::lemma_collapsed_symbols(path, blank, r.vocab_size as int);
    assert forall|p: int| 0 <= p < spelled.len() implies 0 <= (#[trigger] spelled[p]) < r.vocab.len() by {
        assert(won[frames[p] as int] == text[p]);
        assert(text[p] < r.vocab_size && text[p] != blank);
    }
    lemma_spelling_is_flat(r.vocab@, spelled, frames.len() as int);
    assert(Seq::new(frames.len(), |p: int| r.vocab@[spelled[p]]@) =~= Seq::new(
        text.len(),
        |p: int| r.vocab[text[p] as int]@,
    )) by {
        assert forall|p: int| 0 <= p < text.len() implies r.vocab@[spelled[p]]@ == r.vocab[text[p] as int]@ by {
            assert(won[frames[p] as int] == text[p]);
        }
    }
}

/// The text of a prefix is that of its symbols, one after the other.
pub proof fn law_spelling_puts_entries_together(vocab: Seq<String>, prefix: Seq<usize>)
    requires
        forall|p: int| 0 <= p < prefix.len() ==> (#[trigger] prefix[p]) < vocab.len(),
    ensures
        spelling(vocab, prefix.map_values(|c: usize| c as int), prefix.len() as int) == Seq::new(
            prefix.len(),
            |p: int| vocab[prefix[p] as int]@,
        ).flatten(),
{
    let spelled = prefix.map_values(|c: usize| c as int);
    lemma_spelling_is_flat(vocab, spelled, prefix.len() as int);
    assert(Seq::new(prefix.len(), |p: int| vocab[spelled[p]]@) =~= Seq::new(
        prefix.len(),
        |p: int| vocab[prefix[p] as int]@,
    ));
}

} // verus!
