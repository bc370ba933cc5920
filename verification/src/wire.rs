//! Reading the protobuf wire format.

use vstd::prelude::*;

verus! {

/// A varint has at most this many bytes.
pub const MAX_VARINT: u32 = 10;

/// Two to the power of 64.
pub const WORD: u128 = 0x1_0000_0000_0000_0000;

/// Reading a varint from `pos` on: its value, if it is complete, and where
/// reading stops. `count` bytes were read before, and they add up to `sum`; the
/// next seven bits count `place` each. The value is taken modulo a word.
pub open spec fn varint_from(data: Seq<u8>, pos: int, count: int, sum: int, place: int) -> (Option<u64>, int)
    decreases data.len() - pos,
{
    if pos >= data.len() {
        (None, pos)
    } else {
        let more = sum + (data[pos] % 128) * place;
        if data[pos] < 128 {
            (Some((more % (WORD as int)) as u64), pos + 1)
        } else if count + 1 >= MAX_VARINT {
            (None, pos + 1)
        } else {
            varint_from(data, pos + 1, count + 1, more, place * 128)
        }
    }
}

/// Reading a varint from `pos` on.
pub open spec fn varint(data: Seq<u8>, pos: int) -> (Option<u64>, int) {
    varint_from(data, pos, 0, 0, 1)
}

/// The number of the field and the wire type that a tag holds.
pub open spec fn tag_of(value: u64) -> (u32, u32) {
    ((value as int / 8 % 0x1_0000_0000) as u32, (value % 8) as u32)
}

/// Reading a tag from `pos` on.
pub open spec fn tag(data: Seq<u8>, pos: int) -> (Option<(u32, u32)>, int) {
    match varint(data, pos) {
        (Some(value), next) => (Some(tag_of(value)), next),
        (None, next) => (None, next),
    }
}

/// Reading `len` bytes from `pos` on: all of them, or none.
pub open spec fn bytes(data: Seq<u8>, pos: int, len: int) -> (Option<Seq<u8>>, int) {
    if pos + len <= data.len() {
        (Some(data.subrange(pos, pos + len)), pos + len)
    } else {
        (None, pos)
    }
}

/// Passing over `len` bytes, or to the end.
pub open spec fn skipped(data: Seq<u8>, pos: int, len: int) -> int {
    if pos + len < data.len() {
        pos + len
    } else {
        data.len() as int
    }
}

/// A reader of the wire format.
pub struct ProtobufReader<'a> {
    data: &'a [u8],
    pos: usize,
}

impl<'a> ProtobufReader<'a> {
    /// The bytes that are read.
    pub closed spec fn data(&self) -> Seq<u8> {
        self.data@
    }

    /// How many bytes were read.
    pub closed spec fn pos(&self) -> int {
        self.pos as int
    }

    /// The position lies within the bytes.
    pub open spec fn wf(&self) -> bool {
        0 <= self.pos() <= self.data().len()
    }

    /// A reader at the start of some bytes.
    pub fn new(data: &'a [u8]) -> (reader: ProtobufReader<'a>)
        ensures
            reader.wf(),
            reader.data() == data@,
            reader.pos() == 0,
    {
        ProtobufReader { data, pos: 0 }
    }

    /// How many bytes are left.
    pub fn remaining(&self) -> (n: usize)
        requires
            self.wf(),
        ensures
            n == self.data().len() - self.pos(),
    {
        self.data.len() - self.pos
    }

    /// Reads a byte.
    pub fn read_byte(&mut self) -> (byte: Option<u8>)
        requires
            old(self).wf(),
        ensures
            final(self).wf(),
            final(self).data() == old(self).data(),
            match byte {
                Some(b) => old(self).pos() < old(self).data().len() && b == old(self).data()[old(self).pos()]
                    && final(self).pos() == old(self).pos() + 1,
                None => old(self).pos() == old(self).data().len() && final(self).pos() == old(self).pos(),
            },
    {
        if self.pos < self.data.len() {
            let b = self.data[self.pos];
            self.pos = self.pos + 1;
            Some(b)
        } else {
            None
        }
    }

    /// Reads a varint.
    pub fn read_varint(&mut self) -> (value: Option<u64>)
        requires
            old(self).wf(),
        ensures
            final(self).wf(),
            final(self).data() == old(self).data(),
            (value, final(self).pos()) == varint(old(self).data(), old(self).pos()),
            old(self).pos() <= final(self).pos(),
            value is Some ==> old(self).pos() < final(self).pos(),
    {
        let ghost start = self.pos();
        let ghost all = self.data();
        let mut sum: u128 = 0;
        let mut place: u128 = 1;
        let mut count: u32 = 0;
        loop
            invariant
                all == old(self).data(),
                start == old(self).pos(),
                self.wf(),
                self.data() == all,
                start <= self.pos(),
                count < 10,
                1 <= place <= 0x8000_0000_0000_0000,
                count == 0 ==> place == 1,
                count == 1 ==> place == 0x80,
                count == 2 ==> place == 0x4000,
                count == 3 ==> place == 0x20_0000,
                count == 4 ==> place == 0x1000_0000,
                count == 5 ==> place == 0x8_0000_0000,
                count == 6 ==> place == 0x400_0000_0000,
                count == 7 ==> place == 0x2_0000_0000_0000,
                count == 8 ==> place == 0x100_0000_0000_0000,
                count == 9 ==> place == 0x8000_0000_0000_0000,
                sum < place,
                varint(all, start) == varint_from(all, self.pos(), count as int, sum as int, place as int),
            decreases 10 - count,
        {
            match self.read_byte() {
                None => {
                    return None;
                },
                Some(b) => {
                    let low: u128 = (b % 128) as u128;
                    assert(low * place <= 127 * place) by (nonlinear_arith)
                        requires
                            0 <= low <= 127,
                            0 <= place,
                    ;
                    assert(low * place >= 0) by (nonlinear_arith)
                        requires
                            0 <= low,
                            0 <= place,
                    ;
                    sum = sum + low * place;
                    if b < 128 {
                        return Some((sum % WORD) as u64);
                    }
                    if count >= 9 {
                        return None;
                    }
                    place = place * 128;
                    count = count + 1;
                },
            }
        }
    }

    /// Reads a tag: the number of a field and its wire type.
    pub fn read_tag(&mut self) -> (found: Option<(u32, u32)>)
        requires
            old(self).wf(),
        ensures
            final(self).wf(),
            final(self).data() == old(self).data(),
            (found, final(self).pos()) == tag(old(self).data(), old(self).pos()),
            old(self).pos() <= final(self).pos(),
            found is Some ==> old(self).pos() < final(self).pos(),
    {
        match self.read_varint() {
            Some(value) => Some((((value / 8) % 0x1_0000_0000) as u32, (value % 8) as u32)),
            None => None,
        }
    }

    /// Reads `len` bytes, or none if there are fewer.
    pub fn read_bytes(&mut self, len: u64) -> (part: Option<&'a [u8]>)
        requires
            old(self).wf(),
        ensures
            final(self).wf(),
            final(self).data() == old(self).data(),
            old(self).pos() <= final(self).pos(),
            final(self).pos() == bytes(old(self).data(), old(self).pos(), len as int).1,
            match part {
                Some(b) => bytes(old(self).data(), old(self).pos(), len as int).0 == Some(b@),
                None => bytes(old(self).data(), old(self).pos(), len as int).0 is None,
            },
    {
        let left: usize = self.data.len() - self.pos;
        if len <= left as u64 {
            let end: usize = self.pos + len as usize;
            let part = vstd::slice::slice_subrange(self.data, self.pos, end);
            self.pos = end;
            Some(part)
        } else {
            None
        }
    }

    /// Passes over `len` bytes, or to the end.
    pub fn skip(&mut self, len: u64)
        requires
            old(self).wf(),
        ensures
            final(self).wf(),
            final(self).data() == old(self).data(),
            old(self).pos() <= final(self).pos(),
            final(self).pos() == skipped(old(self).data(), old(self).pos(), len as int),
    {
        let left: usize = self.data.len() - self.pos;
        if len < left as u64 {
            self.pos = self.pos + len as usize;
        } else {
            self.pos = self.data.len();
        }
    }
}

/// A varint's position never goes back, and goes on where there is a byte.
pub proof fn lemma_varint_advances(data: Seq<u8>, pos: int, count: int, sum: int, place: int)
    requires
        0 <= pos <= data.len(),
    ensures
        pos <= varint_from(data, pos, count, sum, place).1 <= data.len(),
        pos < data.len() ==> pos < varint_from(data, pos, count, sum, place).1,
    decreases data.len() - pos,
{
    if pos < data.len() && data[pos] >= 128 && count + 1 < MAX_VARINT {
        lemma_varint_advances(data, pos + 1, count + 1, sum + (data[pos] % 128) * place, place * 128);
    }
}

/// The shortest encoding of a number.
pub open spec fn encoded(value: nat) -> Seq<u8>
    decreases value,
{
    if value < 128 {
        seq![value as u8]
    } else {
        seq![(value % 128 + 128) as u8] + encoded(value / 128)
    }
}

proof fn lemma_read_encoded(before: Seq<u8>, value: nat, after: Seq<u8>, count: int, sum: int, place: int)
    requires
        0 <= count,
        0 <= sum,
        1 <= place,
        value < bound(count),
    ensures
        varint_from(before + encoded(value) + after, before.len() as int, count, sum, place) == (
            Some(((sum + value * place) % (WORD as int)) as u64),
            (before.len() + encoded(value).len()) as int,
        ),
    decreases value,
{
    let data = before + encoded(value) + after;
    let pos = before.len() as int;
    if value < 128 {
        assert(data[pos] == value);
    } else {
        let first = (value % 128 + 128) as u8;
        assert(data[pos] == first);
        assert(first % 128 == value % 128);
        assert(count + 1 < MAX_VARINT);
        let rest = (value / 128) as nat;
        assert(before.push(first) + encoded(rest) + after =~= data);
        let more = sum + (value % 128) * place;
        assert(place * 128 >= 1);
        lemma_read_encoded(before.push(first), rest, after, count + 1, more, place * 128);
        assert(more + rest * (place * 128) == sum + value * place) by (nonlinear_arith)
            requires
                more == sum + (value % 128) * place,
                rest == value / 128,
                value == 128 * rest + value % 128,
        ;
    }
}

/// Above this no number is left for a varint of which `count` bytes were read.
spec fn bound(count: int) -> int {
    if count <= 0 {
        0x1_0000_0000_0000_0000
    } else if count == 1 {
        0x200_0000_0000_0000
    } else if count == 2 {
        0x4_0000_0000_0000
    } else if count == 3 {
        0x800_0000_0000
    } else if count == 4 {
        0x10_0000_0000
    } else if count == 5 {
        0x2000_0000
    } else if count == 6 {
        0x40_0000
    } else if count == 7 {
        0x8000
    } else if count == 8 {
        0x100
    } else {
        2
    }
}

/// A number that was written as a varint is read back, wherever it stands.
pub proof fn law_varint_is_read_back(before: Seq<u8>, value: u64, after: Seq<u8>)
    ensures
        varint(before + encoded(value as nat) + after, before.len() as int) == (
            Some(value),
            (before.len() + encoded(value as nat).len()) as int,
        ),
{
    lemma_read_encoded(before, value as nat, after, 0, 0, 1);
}

/// A tag that was written as the varint of eight times the field's number and the
/// wire type is read back, wherever it stands.
pub proof fn law_tag_is_read_back(before: Seq<u8>, field: u32, kind: u32, after: Seq<u8>)
    requires
        kind < 8,
    ensures
        tag(before + encoded((8 * field + kind) as nat) + after, before.len() as int) == (
            Some((field, kind)),
            (before.len() + encoded((8 * field + kind) as nat).len()) as int,
        ),
{
    law_varint_is_read_back(before, (8 * field + kind) as u64, after);
}

/// A part that is asked for comes whole if it is there, and the reader goes on
/// behind it, as it does when the part is passed over; else nothing is read, and
/// passing over ends at the end.
pub proof fn law_parts_are_read_whole(before: Seq<u8>, part: Seq<u8>, after: Seq<u8>, more: int)
    requires
        more > 0,
    ensures
        ({
            let data = before + part + after;
            let end = (before.len() + part.len()) as int;
            &&& bytes(data, before.len() as int, part.len() as int) == (Some(part), end)
            &&& skipped(data, before.len() as int, part.len() as int) == end
            &&& bytes(before + part, before.len() as int, part.len() + more) == (None::<Seq<u8>>, before.len() as int)
            &&& skipped(before + part, before.len() as int, part.len() + more) == end
        }),
{
    let data = before + part + after;
    assert(data.subrange(before.len() as int, (before.len() + part.len()) as int) =~= part);
}

} // verus!
