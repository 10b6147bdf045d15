//! Byte cursors, padding, copying and hashing helpers.

use vstd::prelude::*;
use vstd::string::StringSliceAdditionalSpecFns;

verus! {

/// Why a read, a write or an alignment on a byte cursor could not be done.
#[derive(Clone, Copy, PartialEq, Eq, Structural, Debug)]
pub enum StreamError {
    /// Fewer bytes were available than the operation needed.
    UnexpectedEof { wanted: u64, available: u64 },
    /// Alignment was asked for relative to a point past the position.
    BeforeRelativeStart { position: u64, relative_to: u64 },
    /// The aligned position does not exist (zero alignment, or it overflows).
    CannotAlign { position: u64, alignment: u64 },
}

/// The error for a read of `wanted` bytes where `available` remain.
pub open spec fn eof_error<T>(wanted: int, available: int) -> Result<T, StreamError> {
    Err(StreamError::UnexpectedEof { wanted: wanted as u64, available: available as u64 })
}

/// The error for an alignment relative to a point past the position.
pub open spec fn before_start_error(position: int, relative_to: int) -> Result<(), StreamError> {
    Err(StreamError::BeforeRelativeStart { position: position as u64, relative_to: relative_to as u64 })
}

/// `d` with `b` written over it starting at `p`, growing it where `b` runs past its end.
pub open spec fn overwrite(d: Seq<u8>, p: int, b: Seq<u8>) -> Seq<u8> {
    if p + b.len() >= d.len() {
        d.subrange(0, p) + b
    } else {
        d.subrange(0, p) + b + d.subrange(p + b.len(), d.len() as int)
    }
}

/// Writing at `p` leaves the bytes before `p` alone and puts `b` at `p`.
pub proof fn lemma_overwrite_parts(d: Seq<u8>, p: int, b: Seq<u8>)
    requires
        0 <= p <= d.len(),
    ensures
        overwrite(d, p, b).len() >= p + b.len(),
        overwrite(d, p, b).len() >= d.len(),
        overwrite(d, p, b).subrange(p, p + b.len()) == b,
        forall|x: int, y: int|
            0 <= x <= y <= p ==> #[trigger] overwrite(d, p, b).subrange(x, y) == d.subrange(x, y),
{
    let o = overwrite(d, p, b);
    assert(o.subrange(p, p + b.len()) =~= b);
    assert forall|x: int, y: int| 0 <= x <= y <= p implies #[trigger] overwrite(d, p, b).subrange(x, y) == d.subrange(x, y) by {
        assert(o.subrange(x, y) =~= d.subrange(x, y));
    }
}

/// What is written at the start of a byte string is its prefix.
pub proof fn lemma_overwrite_prefix(d: Seq<u8>, b: Seq<u8>)
    ensures
        overwrite(d, 0, b).len() >= b.len(),
        overwrite(d, 0, b).subrange(0, b.len() as int) == b,
{
    assert(overwrite(d, 0, b).subrange(0, b.len() as int) =~= b);
}

/// The number of bytes that bring `pos` up to the next multiple of `alignment`.
pub open spec fn padding_to(pos: int, alignment: int) -> int {
    if pos % alignment == 0 {
        0
    } else {
        alignment - pos % alignment
    }
}

/// An in-memory byte stream with a position: what is read from it and
/// written to it behaves as it does for a file opened for reading and
/// writing. The position never passes the end of the data.
pub struct ByteCursor {
    data: Vec<u8>,
    pos: usize,
}

impl ByteCursor {
    /// The bytes held.
    pub closed spec fn bytes(&self) -> Seq<u8> {
        self.data@
    }

    /// The current position.
    pub closed spec fn position(&self) -> nat {
        if self.pos <= self.data.len() {
            self.pos as nat
        } else {
            self.data.len() as nat
        }
    }

    /// The position, which methods keep within the data.
    fn pos(&self) -> (r: usize)
        ensures
            r == self.position(),
    {
        if self.pos <= self.data.len() {
            self.pos
        } else {
            self.data.len()
        }
    }

    /// The position is never past the end of the data.
    pub proof fn lemma_position_in_data(&self)
        ensures
            self.position() <= self.bytes().len(),
    {
    }

    /// A cursor over `data`, positioned at its start.
    pub fn new(data: Vec<u8>) -> (r: Self)
        ensures
            r.bytes() == data@,
            r.position() == 0,
    {
        ByteCursor { data, pos: 0 }
    }

    /// The bytes held, giving up the cursor.
    pub fn into_inner(self) -> (r: Vec<u8>)
        ensures
            r@ == self.bytes(),
    {
        self.data
    }

    /// The bytes held.
    pub fn get_ref(&self) -> (r: &Vec<u8>)
        ensures
            r@ == self.bytes(),
    {
        &self.data
    }

    /// The number of bytes held.
    pub fn len(&self) -> (r: usize)
        ensures
            r == self.bytes().len(),
    {
        self.data.len()
    }

    /// The current position.
    pub fn stream_position(&self) -> (r: u64)
        ensures
            r == self.position(),
    {
        self.pos() as u64
    }

    /// Move to `pos`, which may not lie past the end of the data.
    pub fn seek(&mut self, pos: u64)
        requires
            pos <= old(self).bytes().len(),
        ensures
            final(self).bytes() == old(self).bytes(),
            final(self).position() == pos,
    {
        self.pos = self.pos();
        self.pos = pos as usize;
    }

    /// Write `buf` at the position, over what is there and past the end
    /// as needed, and move past it.
    pub fn write_all(&mut self, buf: &[u8])
        ensures
            final(self).bytes() == overwrite(
                old(self).bytes(),
                old(self).position() as int,
                buf@,
            ),
            final(self).position() == old(self).position() + buf@.len(),
    {
        self.pos = self.pos();
        let ghost d0 = self.data@;
        let ghost start_pos = self.pos as int;
        let mut i: usize = 0;
        while i < buf.len()
            invariant
                i <= buf@.len(),
                start_pos + i <= self.data.len(),
                self.pos == start_pos,
                0 <= start_pos <= d0.len(),
                self.data@ == overwrite(d0, start_pos, buf@.subrange(0, i as int)),
            decreases buf@.len() - i,
        {
            let at = self.pos + i;
            if at < self.data.len() {
                self.data.set(at, buf[i]);
            } else {
                self.data.push(buf[i]);
            }
            i = i + 1;
            assert(self.data@ =~= overwrite(d0, start_pos, buf@.subrange(0, i as int)));
        }
        assert(buf@.subrange(0, i as int) =~= buf@);
        self.pos = self.pos + i;
    }

    /// Write `count` zero bytes at the position and move past them.
    pub fn write_zeros(&mut self, count: u64)
        ensures
            final(self).bytes() == overwrite(
                old(self).bytes(),
                old(self).position() as int,
                Seq::new(count as nat, |i: int| 0u8),
            ),
            final(self).position() == old(self).position() + count,
    {
        self.pos = self.pos();
        let ghost d0 = self.data@;
        let ghost start_pos = self.pos as int;
        let mut i: u64 = 0;
        while i < count
            invariant
                i <= count,
                start_pos + i <= self.data.len(),
                self.pos == start_pos,
                0 <= start_pos <= d0.len(),
                self.data@ == overwrite(d0, start_pos, Seq::new(i as nat, |j: int| 0u8)),
            decreases count - i,
        {
            let at = self.pos + i as usize;
            if at < self.data.len() {
                self.data.set(at, 0);
            } else {
                self.data.push(0);
            }
            i = i + 1;
            assert(self.data@ =~= overwrite(d0, start_pos, Seq::new(i as nat, |j: int| 0u8)));
        }
        self.pos = self.pos + i as usize;
    }

    /// Read exactly `amount` bytes at the position and move past them;
    /// fail, without moving, where fewer remain.
    pub fn read_exact(&mut self, amount: usize) -> (r: Result<Vec<u8>, StreamError>)
        ensures
            old(self).position() + amount <= old(self).bytes().len() <==> r is Ok,
            r matches Ok(v) ==> v@ == old(self).bytes().subrange(
                old(self).position() as int,
                old(self).position() + amount,
            ) && final(self).position() == old(self).position() + amount,
            r is Err ==> r == eof_error::<Vec<u8>>(amount as int, old(self).bytes().len() - old(self).position())
                && final(self).position() == old(self).position(),
            final(self).bytes() == old(self).bytes(),
    {
        self.pos = self.pos();
        let available = self.data.len() - self.pos;
        if amount > available {
            return Err(StreamError::UnexpectedEof { wanted: amount as u64, available: available as u64 });
        }
        let v = slice_of(&self.data, self.pos, amount);
        self.pos = self.pos + amount;
        Ok(v)
    }
}

/// The `len` bytes of `data` starting at `start`.
pub fn slice_of(data: &Vec<u8>, start: usize, len: usize) -> (r: Vec<u8>)
    requires
        start + len <= data@.len(),
    ensures
        r@ == data@.subrange(start as int, start + len),
{
    let mut r: Vec<u8> = Vec::new();
    let mut i: usize = 0;
    while i < len
        invariant
            i <= len,
            start + len <= data.len(),
            r@ == data@.subrange(start as int, start + i),
        decreases len - i,
    {
        r.push(data[start + i]);
        i = i + 1;
        assert(r@ =~= data@.subrange(start as int, start + i));
    }
    r
}

/// Write zeros to `file` until its position, counted from `relative_to`,
/// is a multiple of `alignment`.
pub fn write_zeros_to_align_to(file: &mut ByteCursor, alignment: u64, relative_to: u64) -> (r:
    Result<(), StreamError>)
    ensures
        ({
            let pos = old(file).position() as int;
            &&& r is Ok <==> (relative_to <= pos && alignment > 0 && (pos - relative_to)
                + padding_to(pos - relative_to, alignment as int) <= u64::MAX)
            &&& r is Ok ==> final(file).bytes() == overwrite(
                old(file).bytes(),
                pos,
                Seq::new(padding_to(pos - relative_to, alignment as int) as nat, |i: int| 0u8),
            ) && final(file).position() == pos + padding_to(pos - relative_to, alignment as int)
            &&& r is Err ==> *final(file) == *old(file)
            &&& pos < relative_to ==> r == before_start_error(pos, relative_to as int)
        }),
{
    let pos = file.stream_position();
    if pos < relative_to {
        return Err(StreamError::BeforeRelativeStart { position: pos, relative_to });
    }
    let pos = pos - relative_to;
    if alignment == 0 {
        return Err(StreamError::CannotAlign { position: pos, alignment });
    }
    let rem = pos % alignment;
    let write_amount: u64 = if rem == 0 {
        0
    } else {
        alignment - rem
    };
    if write_amount > u64::MAX - pos {
        return Err(StreamError::CannotAlign { position: pos, alignment });
    }
    file.write_zeros(write_amount);
    Ok(())
}

/// Copy `amount` bytes from the position of `read_from` to the position
/// of `write_to`. Fails, changing neither, where fewer than `amount`
/// bytes remain to be read.
pub fn read_from_into(read_from: &mut ByteCursor, write_to: &mut ByteCursor, amount: usize) -> (r:
    Result<(), StreamError>)
    ensures
        r is Ok <==> old(read_from).position() + amount <= old(read_from).bytes().len(),
        r is Ok ==> {
            &&& final(read_from).bytes() == old(read_from).bytes()
            &&& final(read_from).position() == old(read_from).position() + amount
            &&& final(write_to).bytes() == overwrite(
                old(write_to).bytes(),
                old(write_to).position() as int,
                old(read_from).bytes().subrange(
                    old(read_from).position() as int,
                    old(read_from).position() + amount,
                ),
            )
            &&& final(write_to).position() == old(write_to).position() + amount
        },
        r is Err ==> {
            &&& final(read_from).bytes() == old(read_from).bytes()
            &&& final(read_from).position() == old(read_from).position()
            &&& *final(write_to) == *old(write_to)
        },
{
    let tmp = read_from.read_exact(amount);
    match tmp {
        Ok(bytes) => {
            write_to.write_all(bytes.as_slice());
            Ok(())
        },
        Err(e) => Err(e),
    }
}

/// The hash that std's `DefaultHasher` gives a run of bytes.
pub uninterp spec fn hash_of(bytes: Seq<u8>) -> u64;

/// Relies on std's `DefaultHasher` made by `new`, whose keys are fixed, so
/// that the hash of a byte slice depends on its bytes alone.
#[verifier::external_body]
fn hash_bytes(bytes: &[u8]) -> (r: u64)
    ensures
        r == hash_of(bytes@),
{
    let mut hasher = std::collections::hash_map::DefaultHasher::new();
    std::hash::Hash::hash_slice(bytes, &mut hasher);
    std::hash::Hasher::finish(&hasher)
}

/// Hash the `size` bytes of `data` that start at `offset`. Fails where
/// the data ends before them.
pub fn calc_hash_from_file_slice(data: &Vec<u8>, offset: u64, size: usize) -> (r: Result<
    u64,
    StreamError,
>)
    ensures
        r is Ok <==> offset + size <= data@.len(),
        r matches Ok(h) ==> h == hash_of(data@.subrange(offset as int, offset + size)),
{
    if offset > data.len() as u64 || size > data.len() - offset as usize {
        let available: u64 = if offset > data.len() as u64 {
            0
        } else {
            (data.len() - offset as usize) as u64
        };
        return Err(StreamError::UnexpectedEof { wanted: size as u64, available });
    }
    let bytes = slice_of(data, offset as usize, size);
    Ok(hash_bytes(bytes.as_slice()))
}

/// Relies on `String::push_str`, which appends `t` to `s`.
#[verifier::external_body]
pub(crate) fn push_str(s: &mut String, t: &str)
    ensures
        final(s)@ == old(s)@ + t@,
{
    s.push_str(t)
}

/// Relies on `String::push`, which appends `c` to `s`.
#[verifier::external_body]
pub(crate) fn push_char(s: &mut String, c: char)
    ensures
        final(s)@ == old(s)@.push(c),
{
    s.push(c)
}

/// The number of spaces that right-align a text of `len` bytes to
/// column `align_to` after `written` bytes.
pub open spec fn spaces_before(written: int, align_to: int, len: int) -> int {
    if align_to - written - len > 0 {
        align_to - written - len
    } else {
        0
    }
}

/// Append `s` to `writer`, right-aligned with spaces to column `align_to`,
/// where `amount_written` bytes are already on the line. A text too
/// long to fit is written after no spaces. `amount_written` is moved on by
/// what was written.
pub fn write_right_aligned_str(
    writer: &mut String,
    amount_written: &mut usize,
    align_to: usize,
    s: &str,
)
    requires
        *old(amount_written) + spaces_before(
            *old(amount_written) as int,
            align_to as int,
            s.spec_bytes().len() as int,
        ) + s.spec_bytes().len() <= usize::MAX,
    ensures
        ({
            let n = spaces_before(
                *old(amount_written) as int,
                align_to as int,
                s.spec_bytes().len() as int,
            );
            &&& final(writer)@ == old(writer)@ + Seq::new(n as nat, |i: int| ' ') + s@
            &&& *final(amount_written) == *old(amount_written) + n + s.spec_bytes().len()
        }),
{
    let len = s.len();
    let spaces = align_to.saturating_sub(*amount_written).saturating_sub(len);
    let ghost w0 = writer@;
    let mut i: usize = 0;
    while i < spaces
        invariant
            i <= spaces,
            writer@ == w0 + Seq::new(i as nat, |j: int| ' '),
        decreases spaces - i,
    {
        push_char(writer, ' ');
        i = i + 1;
        assert(writer@ =~= w0 + Seq::new(i as nat, |j: int| ' '));
    }
    *amount_written = *amount_written + spaces;
    push_str(writer, s);
    *amount_written = *amount_written + len;
}

} // verus!
