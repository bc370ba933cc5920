//! The line recognizer: how a line is cut, scaled and laid out for a model.

use vstd::prelude::*;

use crate::chars;
use crate::gray;
use crate::gray::Gray;
use crate::measure;
use crate::ordering::Ordinal;

verus! {

/// The height of a model's input.
pub const MODEL_HEIGHT: u32 = 32;

/// The width of a model's input.
pub const MODEL_WIDTH: u32 = 168;

/// The columns of a model's input that one frame shows.
pub const FRAME_WIDTH: u32 = 4;

/// Columns left free at the left of a model's input.
pub const LEFT_MARGIN: u32 = 12;

/// Columns left free for the universal model.
pub const UND_LEFT_MARGIN: u32 = 8;

/// Frames of a model whose output tells no number.
pub const DEFAULT_TIME_STEPS: usize = 42;

/// The ordinal of 0.15: characters below this confidence are dropped.
pub const CHAR_CONF_THRESHOLD: Ordinal = 0x3E19_999A;

/// The universal model's characters are never dropped.
pub const UND_CHAR_CONF_THRESHOLD: Ordinal = 0;

/// A line with a shorter side is not read.
pub const LEAST_LINE: u32 = 5;

/// A narrower chunk is not read.
pub const LEAST_CHUNK: u32 = 10;

/// The shape of a recognition model and its vocabulary.
pub struct LineRecognizer {
    pub vocab: Vec<String>,
    pub time_steps: usize,
    pub vocab_size: usize,
    pub blank_idx: usize,
    pub output_idx: usize,
    pub left_margin: u32,
    pub model_name: String,
}

/// The universal model's name.
pub open spec fn is_universal(name: Seq<char>) -> bool {
    name == "gocr_mobile_und"@
}

/// The CJK model's name.
pub open spec fn is_cjk_model(name: Seq<char>) -> bool {
    name == "hanijpan"@
}

/// An output holds scores of frames by symbols: it has three dimensions, the
/// last larger than the vocabulary.
pub open spec fn holds_scores(dims: Seq<usize>, vocab: nat) -> bool {
    dims.len() == 3 && dims[2] > vocab
}

/// The first output from `k` on that holds scores.
pub open spec fn score_output(outputs: Seq<Vec<usize>>, vocab: nat, k: int) -> Option<int>
    decreases outputs.len() - k,
{
    if k >= outputs.len() {
        None
    } else if holds_scores(outputs[k]@, vocab) {
        Some(k)
    } else {
        score_output(outputs, vocab, k + 1)
    }
}

fn same_text(a: &str, b: &str) -> (same: bool)
    ensures
        same == (a@ == b@),
{
    let x = chars::chars_of(a);
    let y = chars::chars_of(b);
    if x.len() != y.len() {
        return false;
    }
    let mut k: usize = 0;
    while k < x.len()
        invariant
            k <= x.len(),
            x.len() == y.len(),
            x@ == a@,
            y@ == b@,
            forall|i: int| 0 <= i < k ==> x[i] == y[i],
        decreases x.len() - k,
    {
        if x[k] != y[k] {
            assert(a@[k as int] != b@[k as int]);
            return false;
        }
        k = k + 1;
    }
    assert(x@ =~= y@);
    true
}

impl LineRecognizer {
    /// The blank is the last symbol, and the margin leaves room for text.
    pub open spec fn wf(&self) -> bool {
        &&& self.vocab_size > 0
        &&& self.blank_idx == self.vocab_size - 1
        &&& self.left_margin == if is_universal(self.model_name@) {
            UND_LEFT_MARGIN
        } else {
            LEFT_MARGIN
        }
    }

    /// A recognizer for a model with the given outputs.
    pub fn new_with_model(vocab: Vec<String>, outputs: &Vec<Vec<usize>>, model_name: &str) -> (r: LineRecognizer)
        requires
            vocab.len() < usize::MAX,
        ensures
            r.wf(),
            r.vocab@ == vocab@,
            r.model_name@ == model_name@,
            match score_output(outputs@, vocab.len() as nat, 0) {
                Some(k) => r.output_idx == k && r.time_steps == outputs[k][1] && r.vocab_size == outputs[k][2],
                None => r.output_idx == 0 && r.time_steps == DEFAULT_TIME_STEPS && r.vocab_size == vocab.len() + 1,
            },
    {
        let mut time_steps: usize = DEFAULT_TIME_STEPS;
        let mut vocab_size: usize = vocab.len() + 1;
        let mut output_idx: usize = 0;
        let mut k: usize = 0;
        let ghost size = vocab.len() as nat;
        while k < outputs.len()
            invariant_except_break
                score_output(outputs@, size, 0) == score_output(outputs@, size, k as int),
                output_idx == 0,
                time_steps == DEFAULT_TIME_STEPS,
                vocab_size == size + 1,
            invariant
                size == vocab.len(),
                k <= outputs.len(),
                vocab_size > 0,
            ensures
                match score_output(outputs@, size, 0) {
                    Some(m) => output_idx == m && time_steps == outputs[m][1] && vocab_size == outputs[m][2],
                    None => output_idx == 0 && time_steps == DEFAULT_TIME_STEPS && vocab_size == size + 1,
                },
            decreases outputs.len() - k,
        {
            let dims = &outputs[k];
            if dims.len() == 3 && dims[2] > vocab.len() {
                time_steps = dims[1];
                vocab_size = dims[2];
                output_idx = k;
                break;
            }
            k = k + 1;
        }
        let left_margin: u32 = if same_text(model_name, "gocr_mobile_und") {
            UND_LEFT_MARGIN
        } else {
            LEFT_MARGIN
        };
        LineRecognizer {
            vocab,
            time_steps,
            vocab_size,
            blank_idx: vocab_size - 1,
            output_idx,
            left_margin,
            model_name: model_name.to_owned(),
        }
    }

    /// The recognizer for the CJK model.
    pub fn new(vocab: Vec<String>, outputs: &Vec<Vec<usize>>) -> (r: LineRecognizer)
        requires
            vocab.len() < usize::MAX,
        ensures
            r.wf(),
            r.vocab@ == vocab@,
            is_cjk_model(r.model_name@),
            r.left_margin == LEFT_MARGIN,
            match score_output(outputs@, vocab.len() as nat, 0) {
                Some(k) => r.output_idx == k && r.time_steps == outputs[k][1] && r.vocab_size == outputs[k][2],
                None => r.output_idx == 0 && r.time_steps == DEFAULT_TIME_STEPS && r.vocab_size == vocab.len() + 1,
            },
    {
        proof {
            reveal_strlit("hanijpan");
            reveal_strlit("gocr_mobile_und");
            assert("hanijpan"@.len() != "gocr_mobile_und"@.len());
        }
        Self::new_with_model(vocab, outputs, "hanijpan")
    }

    /// The columns that text may take.
    pub open spec fn room(&self) -> u32 {
        (MODEL_WIDTH - self.left_margin) as u32
    }

    /// The columns that text may take.
    pub fn effective_width(&self) -> (w: u32)
        requires
            self.wf(),
        ensures
            w == self.room(),
            0 < w < MODEL_WIDTH,
    {
        MODEL_WIDTH - self.left_margin
    }

    /// Characters below this confidence are dropped.
    pub open spec fn threshold(&self) -> Ordinal {
        if is_universal(self.model_name@) {
            UND_CHAR_CONF_THRESHOLD
        } else {
            CHAR_CONF_THRESHOLD
        }
    }

    /// The confidence below which characters are dropped.
    pub fn char_conf_threshold(&self) -> (t: Ordinal)
        ensures
            t == self.threshold(),
    {
        if same_text(self.model_name.as_str(), "gocr_mobile_und") {
            UND_CHAR_CONF_THRESHOLD
        } else {
            CHAR_CONF_THRESHOLD
        }
    }

    /// Tells whether frames are searched with a beam: only the CJK model's.
    pub fn uses_beam_search(&self) -> (yes: bool)
        ensures
            yes == is_cjk_model(self.model_name@),
    {
        same_text(self.model_name.as_str(), "hanijpan")
    }

    /// A line's width, capped at the room that there is.
    pub open spec fn fitted(&self, scaled_width: u32) -> u32 {
        if scaled_width > self.room() {
            self.room()
        } else {
            scaled_width
        }
    }

    /// The model's input for a line: the line, scaled to `scaled_width` columns,
    /// laid on black behind the left margin.
    pub open spec fn canvas_of(&self, img: Gray, scaled_width: u32) -> Seq<u8> {
        let w = self.fitted(scaled_width);
        gray::overlay(
            Seq::new(gray::area(MODEL_WIDTH, MODEL_HEIGHT) as nat, |i: int| 0u8),
            MODEL_WIDTH as int,
            gray::triangle_scaled(img.pixels(), img.width(), img.height(), w, MODEL_HEIGHT),
            w as int,
            MODEL_HEIGHT as int,
            self.left_margin as int,
            0,
        )
    }

    /// Lays a line out as the model's input. `scaled_width` is the line's width
    /// at the model's height; it is capped at the room that there is.
    pub fn prepare_canvas(&self, img: &Gray, scaled_width: u32) -> (canvas: Gray)
        requires
            self.wf(),
            img.wf(),
            gray::can_scale(img.width(), img.height(), self.fitted(scaled_width), MODEL_HEIGHT),
        ensures
            canvas.wf(),
            canvas.width() == MODEL_WIDTH,
            canvas.height() == MODEL_HEIGHT,
            canvas.pixels() == self.canvas_of(*img, scaled_width),
    {
        let room = self.effective_width();
        let w: u32 = if scaled_width > room {
            room
        } else {
            scaled_width
        };
        let scaled = img.scaled(w, MODEL_HEIGHT);
        let blank = Gray::filled(MODEL_WIDTH, MODEL_HEIGHT, 0);
        blank.with_overlay(&scaled, self.left_margin, 0)
    }
}

/// The inverted pixels.
pub open spec fn inverted(pixels: Seq<u8>) -> Seq<u8> {
    Seq::new(pixels.len(), |i: int| (255 - pixels[i]) as u8)
}

/// Inverts pixels.
pub fn invert_pixels(pixels: &mut Vec<u8>)
    ensures
        final(pixels)@ == inverted(old(pixels)@),
{
    let ghost before = pixels@;
    let mut k: usize = 0;
    while k < pixels.len()
        invariant
            k <= pixels.len(),
            pixels.len() == before.len(),
            forall|i: int| 0 <= i < k ==> #[trigger] pixels[i] == 255 - before[i],
            forall|i: int| k <= i < pixels.len() ==> #[trigger] pixels[i] == before[i],
        decreases pixels.len() - k,
    {
        pixels.set(k, 255 - pixels[k]);
        k = k + 1;
    }
    assert(pixels@ =~= inverted(before));
}

/// Inverting twice changes nothing.
pub proof fn law_inverting_twice_is_nothing(pixels: Seq<u8>)
    ensures
        inverted(inverted(pixels)) == pixels,
{
    assert(inverted(inverted(pixels)) =~= pixels);
}

/// How a line is read.
pub enum Plan {
    /// It is too small to be read.
    Nothing,
    /// It is read at once.
    Whole,
    /// It is read in overlapping chunks; each from a column up to a column.
    Chunks(Vec<(u32, u32)>),
}

/// The width of a chunk that fills the room at the model's height.
pub open spec fn chunk_width(room: int, h: int) -> int {
    room * h / MODEL_HEIGHT as int
}

/// The distance of two chunks: two fifths of a chunk, at least one column.
pub open spec fn chunk_step(width: int) -> int {
    if 2 * width / 5 < 1 {
        1
    } else {
        2 * width / 5
    }
}

/// The chunks of a line `w` wide that begin at column `x` or behind, `step`
/// columns apart, each `width` wide as far as the line goes.
pub open spec fn chunks_from(x: int, w: int, width: int, step: int) -> Seq<(int, int)>
    decreases (if x < w { w - x } else { 0 }),
{
    let end = if x + width > w {
        w
    } else {
        x + width
    };
    if step < 1 || x >= w - step / 2 || end - x < LEAST_CHUNK {
        Seq::empty()
    } else {
        seq![(x, end)] + chunks_from(x + step, w, width, step)
    }
}

/// The line is short enough to be read at once.
pub open spec fn fits_whole(room: int, w: int, h: int) -> bool {
    w * MODEL_HEIGHT as int / h <= room
}

/// The chunks that a line `w` by `h` is read in.
pub open spec fn line_chunks(room: int, w: int, h: int) -> Seq<(int, int)> {
    let width = chunk_width(room, h);
    chunks_from(0, w, width, chunk_step(width))
}

impl LineRecognizer {
    /// Plans how a line `w` by `h` is read.
    pub fn plan_line(&self, w: u32, h: u32) -> (plan: Plan)
        requires
            self.wf(),
        ensures
            match plan {
                Plan::Nothing => w < 5 || h < 5,
                Plan::Whole => w >= 5 && h >= 5 && fits_whole(self.room() as int, w as int, h as int),
                Plan::Chunks(chunks) => {
                    &&& w >= 5 && h >= 5 && !fits_whole(self.room() as int, w as int, h as int)
                    &&& chunks.len() == line_chunks(self.room() as int, w as int, h as int).len()
                    &&& forall|p: int|
                        0 <= p < chunks.len() ==> (#[trigger] chunks[p].0) as int == line_chunks(
                            self.room() as int,
                            w as int,
                            h as int,
                        )[p].0 && chunks[p].1 as int == line_chunks(self.room() as int, w as int, h as int)[p].1
                            && chunks[p].0 < chunks[p].1 <= w
                },
            },
    {
        if w < LEAST_LINE || h < LEAST_LINE {
            return Plan::Nothing;
        }
        let room = self.effective_width();
        proof {
            assert(room * h <= 168 * 0xffff_ffff) by (nonlinear_arith)
                requires
                    0 <= room <= 168,
                    0 <= h <= 0xffff_ffff,
            ;
            assert(w * MODEL_HEIGHT <= 32 * 0xffff_ffff);
        }
        if w as u64 * MODEL_HEIGHT as u64 / h as u64 <= room as u64 {
            return Plan::Whole;
        }
        let line: u64 = w as u64;
        let width: u64 = room as u64 * h as u64 / MODEL_HEIGHT as u64;
        let fifths: u64 = 2 * width / 5;
        let step: u64 = if fifths < 1 {
            1
        } else {
            fifths
        };
        let ghost all = line_chunks(room as int, w as int, h as int);
        let mut chunks: Vec<(u32, u32)> = Vec::new();
        let ghost mut found: Seq<(int, int)> = Seq::empty();
        let mut x: u64 = 0;
        assert(found + all =~= all);
        loop
            invariant_except_break
                found + chunks_from(x as int, w as int, width as int, step as int) == all,
            invariant
                line == w,
                1 <= step <= 0x8_0000_0000,
                width <= 0x8_0000_0000,
                x <= line + step,
                chunks.len() == found.len(),
                forall|p: int|
                    0 <= p < chunks.len() ==> (#[trigger] chunks[p].0) as int == found[p].0 && chunks[p].1 as int
                        == found[p].1 && chunks[p].0 < chunks[p].1 <= w,
            ensures
                found == all,
            decreases line + step - x,
        {
            if x >= line - (if step / 2 > line { line } else { step / 2 }) {
                assert(chunks_from(x as int, w as int, width as int, step as int) =~= Seq::empty());
                assert(found + Seq::<(int, int)>::empty() =~= found);
                break;
            }
            let end: u64 = if width > line - x {
                line
            } else {
                x + width
            };
            if end - x < LEAST_CHUNK as u64 {
                assert(chunks_from(x as int, w as int, width as int, step as int) =~= Seq::empty());
                assert(found + Seq::<(int, int)>::empty() =~= found);
                break;
            }
            chunks.push((x as u32, end as u32));
            proof {
                let rest = chunks_from(x + step, w as int, width as int, step as int);
                let next = (x as int, end as int);
                assert(found + (seq![next] + rest) =~= found.push(next) + rest);
                found = found.push(next);
            }
            x = x + step;
        }
        Plan::Chunks(chunks)
    }
}

/// The chunks of a line begin at its start and end at its end, each begins
/// within the one before it and ends no earlier, and each is wide enough.
pub proof fn law_chunks_cover_the_line(room: int, w: int, h: int)
    requires
        room == MODEL_WIDTH - LEFT_MARGIN || room == MODEL_WIDTH - UND_LEFT_MARGIN,
        h >= LEAST_LINE,
        w >= LEAST_LINE,
        !fits_whole(room, w, h),
    ensures
        ({
            let chunks = line_chunks(room, w, h);
            &&& chunks.len() > 0
            &&& chunks[0].0 == 0
            &&& chunks.last().1 == w
            &&& forall|p: int| 0 <= p < chunks.len() ==> (#[trigger] chunks[p]).1 - chunks[p].0 >= LEAST_CHUNK
            &&& forall|p: int|
                0 < p < chunks.len() ==> chunks[p - 1].0 < (#[trigger] chunks[p]).0 < chunks[p - 1].1 <= chunks[p].1
        }),
{
    let width = chunk_width(room, h);
    let step = chunk_step(width);
    assert(room * h >= 780) by (nonlinear_arith)
        requires
            room >= 156,
            h >= 5,
    ;
    assert(width >= 24);
    assert(w >= width) by {
        // The line is wider than the room at the model's height.
        let scaled = w * 32 / h;
        assert(scaled > room);
        assert(w * 32 >= (room + 1) * h) by (nonlinear_arith)
            requires
                w * 32 / h >= room + 1,
                h >= 5,
        ;
        assert(w * 32 >= room * h) by (nonlinear_arith)
            requires
                w * 32 >= (room + 1) * h,
                h >= 5,
        ;
    }
    lemma_chunks_cover(0, w, width, step);
}

proof fn lemma_chunks_cover(x: int, w: int, width: int, step: int)
    requires
        0 <= x,
        width >= 24,
        step == 2 * width / 5,
        w - x > width - step || w - x >= width,
    ensures
        ({
            let chunks = chunks_from(x, w, width, step);
            &&& chunks.len() > 0
            &&& chunks[0].0 == x
            &&& chunks[0].1 == if x + width > w {
                w
            } else {
                x + width
            }
            &&& chunks.last().1 == w
            &&& forall|p: int| 0 <= p < chunks.len() ==> (#[trigger] chunks[p]).1 - chunks[p].0 >= LEAST_CHUNK
            &&& forall|p: int|
                0 < p < chunks.len() ==> chunks[p - 1].0 < (#[trigger] chunks[p]).0 < chunks[p - 1].1 <= chunks[p].1
        }),
    decreases (if x < w { w - x } else { 0 }),
{
    let end = if x + width > w {
        w
    } else {
        x + width
    };
    assert(9 <= step);
    assert(width - step >= 14);
    let chunks = chunks_from(x, w, width, step);
    let rest = chunks_from(x + step, w, width, step);
    assert(chunks =~= seq![(x, end)] + rest);
    if x + width < w {
        lemma_chunks_cover(x + step, w, width, step);
        assert(chunks.last() == rest.last());
        assert forall|p: int| 0 < p < chunks.len() implies chunks[p - 1].0 < (#[trigger] chunks[p]).0 < chunks[p - 1].1
            <= chunks[p].1 by {
            assert(chunks[p] == rest[p - 1]);
            if p > 1 {
                assert(chunks[p - 1] == rest[p - 2]);
                assert(rest[p - 2].0 < rest[p - 1].0 < rest[p - 2].1 <= rest[p - 1].1);
            }
        }
    } else {
        lemma_late_chunks(x + step, w, width, step);
        assert forall|p: int| 0 < p < chunks.len() implies chunks[p - 1].0 < (#[trigger] chunks[p]).0 < chunks[p - 1].1
            <= chunks[p].1 by {
            assert(chunks[p] == rest[p - 1]);
            if p > 1 {
                assert(chunks[p - 1] == rest[p - 2]);
                assert(rest[p - 2].0 < rest[p - 1].0 < rest[p - 2].1 <= rest[p - 1].1);
            }
        }
        if rest.len() > 0 {
            assert(chunks.last() == rest.last());
        } else {
            assert(chunks.last() == chunks[0]);
        }
    }
    assert forall|p: int| 0 <= p < chunks.len() implies (#[trigger] chunks[p]).1 - chunks[p].0 >= LEAST_CHUNK by {
        if p > 0 {
            assert(chunks[p] == rest[p - 1]);
        }
    }
}

/// Chunks that begin so late that the line ends within them.
proof fn lemma_late_chunks(x: int, w: int, width: int, step: int)
    requires
        0 <= x,
        width >= 24,
        step == 2 * width / 5,
        x + width >= w,
    ensures
        ({
            let chunks = chunks_from(x, w, width, step);
            &&& chunks.len() > 0 ==> chunks[0].0 == x && chunks.last().1 == w && x < w
            &&& forall|p: int|
                0 <= p < chunks.len() ==> (#[trigger] chunks[p]).1 - chunks[p].0 >= LEAST_CHUNK && chunks[p].1 == w
            &&& forall|p: int|
                0 < p < chunks.len() ==> chunks[p - 1].0 < (#[trigger] chunks[p]).0 < chunks[p - 1].1 <= chunks[p].1
        }),
    decreases (if x < w { w - x } else { 0 }),
{
    let chunks = chunks_from(x, w, width, step);
    if chunks.len() > 0 {
        let rest = chunks_from(x + step, w, width, step);
        lemma_late_chunks(x + step, w, width, step);
        assert(chunks =~= seq![(x, w)] + rest);
        if rest.len() > 0 {
            assert(chunks.last() == rest.last());
        }
        assert forall|p: int| 0 <= p < chunks.len() implies (#[trigger] chunks[p]).1 - chunks[p].0 >= LEAST_CHUNK
            && chunks[p].1 == w by {
            if p > 0 {
                assert(chunks[p] == rest[p - 1]);
            }
        }
        assert forall|p: int| 0 < p < chunks.len() implies chunks[p - 1].0 < (#[trigger] chunks[p]).0 < chunks[p - 1].1
            <= chunks[p].1 by {
            assert(chunks[p] == rest[p - 1]);
            if p > 1 {
                assert(chunks[p - 1] == rest[p - 2]);
                assert(rest[p - 2].0 < rest[p - 1].0 < rest[p - 2].1 <= rest[p - 1].1);
            }
        }
    }
}

/// How a line lies in the model's input: at its left there are 8 black columns for
/// the universal model and 12 for any other; then comes the scaled line, no wider
/// than what is left of the 168 columns; and the rest is black.
pub proof fn law_line_lies_behind_the_margin(r: LineRecognizer, img: Gray, scaled_width: u32, x: int, y: int)
    requires
        r.wf(),
        0 <= x < 168,
        0 <= y < 32,
    ensures
        ({
            let margin = if r.model_name@ == "gocr_mobile_und"@ {
                8int
            } else {
                12
            };
            let width = if scaled_width > 168 - margin {
                168 - margin
            } else {
                scaled_width as int
            };
            let scaled = gray::triangle_scaled(img.pixels(), img.width(), img.height(), width as u32, 32);
            r.canvas_of(img, scaled_width)[y * 168 + x] == if margin <= x < margin + width {
                scaled[y * width + (x - margin)]
            } else {
                0u8
            }
        }),
{
    gray::lemma_index(168, 32, x, y);
}

/// Which output a recognizer reads: the first of three dimensions of which the last
/// is larger than the vocabulary.
pub proof fn law_first_output_with_scores(outputs: Seq<Vec<usize>>, size: nat, k: int)
    requires
        0 <= k < outputs.len(),
        outputs[k].len() == 3,
        outputs[k][2] > size,
        forall|j: int| 0 <= j < k ==> !((#[trigger] outputs[j]).len() == 3 && outputs[j][2] > size),
    ensures
        score_output(outputs, size, 0) == Some(k),
{
    lemma_score_output(outputs, size, 0, k);
}

proof fn lemma_score_output(outputs: Seq<Vec<usize>>, size: nat, i: int, k: int)
    requires
        0 <= i <= k < outputs.len(),
        outputs[k].len() == 3,
        outputs[k][2] > size,
        forall|j: int| 0 <= j < k ==> !((#[trigger] outputs[j]).len() == 3 && outputs[j][2] > size),
    ensures
        score_output(outputs, size, i) == Some(k),
    decreases k - i,
{
    if i < k {
        assert(!(outputs[i].len() == 3 && outputs[i][2] > size));
        lemma_score_output(outputs, size, i + 1, k);
    }
}

proof fn lemma_chunks_lie_evenly(x: int, w: int, width: int, step: int, p: int)
    requires
        step >= 1,
        0 <= p,
    ensures
        ({
            let chunks = chunks_from(x, w, width, step);
            let end = if x + p * step + width > w {
                w
            } else {
                x + p * step + width
            };
            &&& p < chunks.len() ==> chunks[p] == (x + p * step, end) && x + p * step < w - step / 2 && end - (x + p * step)
                >= 10
            &&& p == chunks.len() ==> x + p * step >= w - step / 2 || end - (x + p * step) < 10
        }),
    decreases p,
{
    let chunks = chunks_from(x, w, width, step);
    let rest = chunks_from(x + step, w, width, step);
    assert(p * step == (p - 1) * step + step) by (nonlinear_arith);
    if chunks.len() > 0 {
        assert(rest.len() + 1 == chunks.len());
        if p > 0 {
            lemma_chunks_lie_evenly(x + step, w, width, step, p - 1);
            if p < chunks.len() {
                assert(chunks[p] == rest[p - 1]);
            }
        } else {
            assert(0 * step == 0);
        }
    } else if p == 0 {
        assert(0 * step == 0);
    }
}

/// The chunks of a line lie evenly: each is as wide as the room at 32 rows shows of
/// the line, but for what the line's end cuts off; each begins two fifths of that
/// width behind the one before. They go on until half such a step or less is left, or
/// fewer than ten columns.
pub proof fn law_chunks_lie_evenly(room: int, w: int, h: int, width: int, step: int, p: int)
    requires
        32 * width <= room * h < 32 * (width + 1),
        5 * step <= 2 * width < 5 * (step + 1),
        step >= 1,
        0 <= p,
    ensures
        ({
            let chunks = line_chunks(room, w, h);
            let begin = p * step;
            let end = if begin + width > w {
                w
            } else {
                begin + width
            };
            &&& p < chunks.len() ==> chunks[p] == (begin, end) && begin < w - step / 2 && end - begin >= 10
            &&& p == chunks.len() ==> begin >= w - step / 2 || end - begin < 10
        }),
{
    assert(chunk_width(room, h) == width);
    assert(chunk_step(width) == step);
    lemma_chunks_lie_evenly(0, w, width, step, p);
}

/// A line is read at once exactly if, at 32 rows, it is less than a column wider than
/// the room.
pub proof fn law_short_lines_fit(room: int, w: int, h: int)
    requires
        h > 0,
        w >= 0,
    ensures
        fits_whole(room, w, h) <==> 32 * w < (room + 1) * h,
{
    let scaled = w * 32 / h;
    assert(scaled <= room <==> w * 32 < (room + 1) * h) by (nonlinear_arith)
        requires
            h > 0,
            w >= 0,
            scaled == w * 32 / h,
    ;
}

/// Characters of the CJK model count from a confidence of 15 hundredths on.
pub proof fn law_character_confidence()
    ensures
        measure::is_nearest(CHAR_CONF_THRESHOLD, 15, 100),
{
    vstd::arithmetic::power2::lemma2_to64();
    vstd::arithmetic::power2::lemma2_to64_rest();
}

} // verus!
