//! Capturing the inputs of the native library's recognition model.
//!
//! An input tensor is registered when it is allocated, and its pixels are
//! written out after the inference that filled it.

use vstd::prelude::*;

use crate::chars;
use crate::decimal;

verus! {

/// The height of a captured item.
pub const REC_HEIGHT: i32 = 32;

/// The width of a captured item.
pub const REC_WIDTH: i32 = 168;

/// The channels of a captured item.
pub const REC_CHANNELS: i32 = 1;

/// The pixels of a captured item.
pub const ITEM_PIXELS: usize = 5376;

/// A tensor that waits to be written out. `buffer` is the caller's name for the
/// tensor's memory, if it has any.
#[derive(Clone, Copy)]
pub struct PendingCapture {
    pub batch: i32,
    pub buffer: Option<usize>,
    pub byte_size: usize,
}

/// An image to be written: `ITEM_PIXELS` bytes of a buffer from `offset` on.
pub struct CaptureFile {
    pub buffer: usize,
    pub offset: usize,
    pub name: String,
}

/// What a `CaptureFile` says.
pub struct Planned {
    pub buffer: usize,
    pub offset: int,
    pub name: Seq<char>,
}

impl View for CaptureFile {
    type V = Planned;

    open spec fn view(&self) -> Planned {
        Planned { buffer: self.buffer, offset: self.offset as int, name: self.name@ }
    }
}

/// The shape of the recognition model's input: a batch of images of its size.
pub open spec fn is_recognition_shape(dims: Seq<i32>) -> bool {
    dims.len() == 4 && dims[1] == REC_HEIGHT && dims[2] == REC_WIDTH && dims[3] == REC_CHANNELS
}

/// The buffer holds all the items of its batch.
pub open spec fn is_complete(c: PendingCapture) -> bool {
    c.buffer is Some && c.batch >= 0 && c.byte_size >= c.batch * ITEM_PIXELS
}

/// The name of the image for item `b` of capture `counter`.
pub open spec fn file_name(counter: nat, b: nat) -> Seq<char> {
    "rec_input_"@ + decimal::padded(counter, 5) + seq!['_'] + decimal::padded(b, 2) + ".png"@
}

/// The images of a capture.
pub open spec fn files_of(c: PendingCapture, counter: nat) -> Seq<Planned> {
    Seq::new(
        c.batch as nat,
        |b: int| Planned { buffer: c.buffer->0, offset: b * ITEM_PIXELS, name: file_name(counter, b as nat) },
    )
}

/// How many of the first `k` captures are complete.
pub open spec fn complete(pending: Seq<PendingCapture>, k: int) -> nat
    decreases k,
{
    if k <= 0 {
        0
    } else {
        complete(pending, k - 1) + (if is_complete(pending[k - 1]) {
            1nat
        } else {
            0
        })
    }
}

/// The images of the first `k` captures, the complete ones counted from
/// `counter` on.
pub open spec fn planned(pending: Seq<PendingCapture>, counter: nat, k: int) -> Seq<Planned>
    decreases k,
{
    if k <= 0 {
        Seq::empty()
    } else if is_complete(pending[k - 1]) {
        planned(pending, counter, k - 1) + files_of(pending[k - 1], counter + complete(pending, k - 1))
    } else {
        planned(pending, counter, k - 1)
    }
}

/// The images as `Planned`.
pub open spec fn models(files: Seq<CaptureFile>) -> Seq<Planned> {
    Seq::new(files.len(), |p: int| files[p]@)
}

/// The captures that wait, and how many were written out.
pub struct CaptureQueue {
    pub pending: Vec<PendingCapture>,
    pub counter: u64,
}

impl CaptureQueue {
    /// A queue in which nothing waits.
    pub fn new() -> (queue: CaptureQueue)
        ensures
            queue.pending@ == Seq::<PendingCapture>::empty(),
            queue.counter == 0,
    {
        CaptureQueue { pending: Vec::new(), counter: 0 }
    }

    /// Registers an allocated tensor if it is the recognition model's input.
    pub fn check_and_register(&mut self, dims: &Vec<i32>, buffer: Option<usize>, byte_size: usize)
        ensures
            final(self).counter == old(self).counter,
            final(self).pending@ == if is_recognition_shape(dims@) {
                old(self).pending@.push(PendingCapture { batch: dims[0], buffer, byte_size })
            } else {
                old(self).pending@
            },
    {
        if dims.len() != 4 {
            return;
        }
        if dims[1] != REC_HEIGHT || dims[2] != REC_WIDTH || dims[3] != REC_CHANNELS {
            return;
        }
        self.pending.push(PendingCapture { batch: dims[0], buffer, byte_size });
    }
}

fn name_of(counter: u64, b: u64) -> (name: String)
    ensures
        name@ == file_name(counter as nat, b as nat),
{
    let mut s = chars::chars_of("rec_input_");
    decimal::write_padded(&mut s, counter, 5);
    s.push('_');
    decimal::write_padded(&mut s, b, 2);
    let end = chars::chars_of(".png");
    chars::append_from(&mut s, &end, 0);
    assert(s@ =~= file_name(counter as nat, b as nat));
    chars::text_of(&s)
}

/// Takes all that waits, and plans the images to be written of the captures that
/// are complete.
pub fn flush_final_captures(queue: &mut CaptureQueue) -> (files: Vec<CaptureFile>)
    requires
        old(queue).counter + old(queue).pending.len() <= u64::MAX,
    ensures
        final(queue).pending@ == Seq::<PendingCapture>::empty(),
        final(queue).counter == old(queue).counter + complete(
            old(queue).pending@,
            old(queue).pending.len() as int,
        ),
        models(files@) == planned(
            old(queue).pending@,
            old(queue).counter as nat,
            old(queue).pending.len() as int,
        ),
{
    let ghost all = queue.pending@;
    let ghost first = queue.counter as nat;
    let mut files: Vec<CaptureFile> = Vec::new();
    let mut k: usize = 0;
    assert(models(files@) =~= Seq::empty());
    while k < queue.pending.len()
        invariant
            k <= queue.pending.len(),
            queue.pending@ == all,
            first + all.len() <= u64::MAX,
            complete(all, k as int) <= k,
            queue.counter == first + complete(all, k as int),
            models(files@) == planned(all, first, k as int),
        decreases queue.pending.len() - k,
    {
        let c = queue.pending[k];
        match c.buffer {
            Some(buffer) => {
                if c.batch >= 0 && c.byte_size as u128 >= c.batch as u128 * ITEM_PIXELS as u128 {
                    let counter = queue.counter;
                    let ghost before = models(files@);
                    let mut b: i32 = 0;
                    assert(before + Seq::<Planned>::empty() =~= before);
                    while b < c.batch
                        invariant
                            0 <= b <= c.batch,
                            c.buffer == Some(buffer),
                            c.byte_size >= c.batch * ITEM_PIXELS,
                            models(files@) == before + files_of(c, counter as nat).take(b as int),
                        decreases c.batch - b,
                    {
                        let ghost so_far = models(files@);
                        let offset: usize = b as usize * ITEM_PIXELS;
                        let file = CaptureFile { buffer, offset, name: name_of(counter, b as u64) };
                        let ghost model = file@;
                        files.push(file);
                        assert(model == files_of(c, counter as nat)[b as int]);
                        assert(models(files@) =~= so_far.push(model));
                        b = b + 1;
                        assert(models(files@) =~= before + files_of(c, counter as nat).take(b as int));
                    }
                    assert(files_of(c, counter as nat).take(c.batch as int) =~= files_of(c, counter as nat));
                    queue.counter = counter + 1;
                }
            },
            None => {},
        }
        k = k + 1;
    }
    queue.pending.clear();
    files
}

/// Each image lies within the buffer of a complete capture.
pub proof fn law_images_lie_in_buffers(pending: Seq<PendingCapture>, counter: nat, k: int, p: int)
    requires
        0 <= k <= pending.len(),
        0 <= p < planned(pending, counter, k).len(),
    ensures
        exists|c: int|
            0 <= c < k && is_complete(#[trigger] pending[c]) && pending[c].buffer == Some(
                planned(pending, counter, k)[p].buffer,
            ) && 0 <= planned(pending, counter, k)[p].offset && planned(pending, counter, k)[p].offset + ITEM_PIXELS
                <= pending[c].byte_size,
    decreases k,
{
    let before = planned(pending, counter, k - 1);
    if p < before.len() {
        law_images_lie_in_buffers(pending, counter, k - 1, p);
        let c = choose|c: int|
            0 <= c < k - 1 && is_complete(#[trigger] pending[c]) && pending[c].buffer == Some(before[p].buffer) && 0
                <= before[p].offset && before[p].offset + ITEM_PIXELS <= pending[c].byte_size;
        assert(planned(pending, counter, k)[p] == before[p]);
        assert(is_complete(pending[c]));
    } else {
        let b = p - before.len();
        let c = pending[k - 1];
        assert(planned(pending, counter, k)[p] == files_of(c, counter + complete(pending, k - 1))[b]);
        assert((b + 1) * ITEM_PIXELS <= c.batch * ITEM_PIXELS) by (nonlinear_arith)
            requires
                b + 1 <= c.batch,
        ;
        assert(is_complete(pending[k - 1]));
    }
}

proof fn lemma_cut_at_mark(a: Seq<char>, x: Seq<char>, b: Seq<char>, y: Seq<char>)
    requires
        decimal::all_digits(a),
        decimal::all_digits(b),
        a + seq!['_'] + x == b + seq!['_'] + y,
    ensures
        a == b,
        x == y,
{
    let left = a + seq!['_'] + x;
    let right = b + seq!['_'] + y;
    if a.len() < b.len() {
        assert(left[a.len() as int] == '_');
        assert(right[a.len() as int] == b[a.len() as int]);
    } else if b.len() < a.len() {
        assert(right[b.len() as int] == '_');
        assert(left[b.len() as int] == a[b.len() as int]);
    }
    assert forall|i: int| 0 <= i < a.len() implies a[i] == b[i] by {
        assert(left[i] == a[i] && right[i] == b[i]);
    }
    assert(a =~= b);
    assert(left.len() == a.len() + 1 + x.len());
    assert(right.len() == b.len() + 1 + y.len());
    assert forall|i: int| 0 <= i < x.len() implies x[i] == y[i] by {
        assert(left[a.len() + 1 + i] == x[i] && right[b.len() + 1 + i] == y[i]);
    }
    assert(x =~= y);
}

/// Images of different captures, or of different items, have different names.
pub proof fn law_names_are_distinct(c: nat, b: nat, d: nat, e: nat)
    requires
        file_name(c, b) == file_name(d, e),
    ensures
        c == d,
        b == e,
{
    let head = "rec_input_"@;
    let tail = ".png"@;
    decimal::law_padded_stands_for_number(c, 5);
    decimal::law_padded_stands_for_number(d, 5);
    decimal::law_padded_stands_for_number(b, 2);
    decimal::law_padded_stands_for_number(e, 2);
    let x = decimal::padded(b, 2) + tail;
    let y = decimal::padded(e, 2) + tail;
    let left = decimal::padded(c, 5) + seq!['_'] + x;
    let right = decimal::padded(d, 5) + seq!['_'] + y;
    assert(file_name(c, b) =~= head + left);
    assert(file_name(d, e) =~= head + right);
    assert(left =~= (head + left).skip(head.len() as int));
    assert(right =~= (head + right).skip(head.len() as int));
    lemma_cut_at_mark(decimal::padded(c, 5), x, decimal::padded(d, 5), y);
    assert(decimal::padded(b, 2) =~= x.take(x.len() - tail.len()));
    assert(decimal::padded(e, 2) =~= y.take(y.len() - tail.len()));
}

proof fn lemma_complete_counts(pending: Seq<PendingCapture>, k: int)
    requires
        0 <= k <= pending.len(),
    ensures
        Set::new(
            |j: int|
                0 <= j < k && pending[j].buffer is Some && pending[j].batch >= 0 && pending[j].byte_size >= pending[j].batch
                    * 5376,
        ).finite(),
        Set::new(
            |j: int|
                0 <= j < k && pending[j].buffer is Some && pending[j].batch >= 0 && pending[j].byte_size >= pending[j].batch
                    * 5376,
        ).len() == complete(pending, k),
    decreases k,
{
    let all = Set::new(
        |j: int|
            0 <= j < k && pending[j].buffer is Some && pending[j].batch >= 0 && pending[j].byte_size >= pending[j].batch
                * 5376,
    );
    if k <= 0 {
        assert(all =~= Set::empty());
    } else {
        lemma_complete_counts(pending, k - 1);
        let fewer = Set::new(
            |j: int|
                0 <= j < k - 1 && pending[j].buffer is Some && pending[j].batch >= 0 && pending[j].byte_size
                    >= pending[j].batch * 5376,
        );
        if is_complete(pending[k - 1]) {
            assert(all =~= fewer.insert(k - 1));
        } else {
            assert(all =~= fewer);
        }
    }
}

/// Every item of a complete capture is written out: one image of 32 by 168 pixels
/// after the other in its buffer, under the number of the capture, counted over the
/// complete ones, and its own.
pub proof fn law_items_are_written_out(pending: Seq<PendingCapture>, counter: nat, k: int, c: int, b: int) -> (at: int)
    requires
        0 <= c < k <= pending.len(),
        pending[c].buffer is Some,
        0 <= b < pending[c].batch,
        pending[c].byte_size >= pending[c].batch * 5376,
    ensures
        ({
            let earlier = Set::new(
                |j: int|
                    0 <= j < c && pending[j].buffer is Some && pending[j].batch >= 0 && pending[j].byte_size
                        >= pending[j].batch * 5376,
            );
            let image = planned(pending, counter, k)[at];
            &&& 0 <= at < planned(pending, counter, k).len()
            &&& pending[c].buffer == Some(image.buffer)
            &&& image.offset == b * 5376
            &&& image.name == file_name(counter + earlier.len(), b as nat)
            &&& at == planned(pending, counter, c).len() + b
        }),
    decreases k,
{
    lemma_complete_counts(pending, c);
    if c < k - 1 {
        law_items_are_written_out(pending, counter, k - 1, c, b)
    } else {
        let before = planned(pending, counter, c).len() as int;
        assert(planned(pending, counter, k)[before + b] == files_of(pending[c], counter + complete(pending, c))[b]);
        before + b
    }
}

/// The inputs that are captured are batches of images of 168 by 32 pixels with one
/// channel, which take up a byte for each pixel.
pub proof fn law_captured_shapes(dims: Seq<i32>)
    ensures
        is_recognition_shape(dims) <==> dims.len() == 4 && dims == seq![dims[0], 32i32, 168i32, 1i32],
        is_recognition_shape(dims) ==> dims[1] * dims[2] * dims[3] == ITEM_PIXELS,
{
    if dims.len() == 4 && dims == seq![dims[0], 32i32, 168i32, 1i32] {
        let shape = seq![dims[0], 32i32, 168i32, 1i32];
        assert(shape[1] == 32 && shape[2] == 168 && shape[3] == 1);
    }
    if is_recognition_shape(dims) {
        assert(dims =~= seq![dims[0], 32i32, 168i32, 1i32]);
    }
}

} // verus!
