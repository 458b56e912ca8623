//! Byte-level primitives for the startup protocol: big-endian integer reads,
//! a message `Header`, and a cursor (`Buffer`) over an immutable byte buffer
//! supporting null-terminated-string extraction and bulk drains.

use vstd::prelude::*;

verus! {

/// The ways a startup-phase frame can be malformed.
#[derive(Clone, Copy, Debug, PartialEq, Eq, Structural)]
pub enum DecodeError {
    /// A length field outside the permitted range.
    InvalidLength,
    /// An un-tagged frame whose code is not one of the recognised startup codes.
    UnknownCode,
    /// A tagged frame whose tag byte is not recognised.
    UnknownTag,
    /// A frame that left unread bytes after its fixed body.
    TrailingBytes,
    /// A frame or string that ended before its content was complete.
    UnexpectedEof,
}

/// The unsigned value of the four big-endian bytes of `s` starting at `i`.
pub open spec fn be_u32_at(s: Seq<u8>, i: int) -> int
    recommends
        0 <= i,
        i + 4 <= s.len(),
{
    s[i] * 0x1000000 + s[i + 1] * 0x10000 + s[i + 2] * 0x100 + s[i + 3]
}

/// The signed (two's-complement) value of the four big-endian bytes of `s`
/// starting at `i`.
pub open spec fn be_i32_at(s: Seq<u8>, i: int) -> int
    recommends
        0 <= i,
        i + 4 <= s.len(),
{
    if be_u32_at(s, i) >= 0x80000000 {
        be_u32_at(s, i) - 0x100000000
    } else {
        be_u32_at(s, i)
    }
}

/// Reads a big-endian u32 from `s` at offset `i`.
pub fn read_be_u32(s: &[u8], i: usize) -> (r: u32)
    requires
        i + 4 <= s@.len(),
    ensures
        r == be_u32_at(s@, i as int),
{
    let b0 = s[i] as u32;
    let b1 = s[i + 1] as u32;
    let b2 = s[i + 2] as u32;
    let b3 = s[i + 3] as u32;
    b0 * 0x1000000 + b1 * 0x10000 + b2 * 0x100 + b3
}

/// Reads a big-endian i32 (two's complement) from `s` at offset `i`.
pub fn read_be_i32(s: &[u8], i: usize) -> (r: i32)
    requires
        i + 4 <= s@.len(),
    ensures
        r == be_i32_at(s@, i as int),
{
    let u = read_be_u32(s, i) as i64;
    if u >= 0x80000000 {
        (u - 0x100000000) as i32
    } else {
        u as i32
    }
}

/// The four big-endian bytes of a 32-bit value.
pub open spec fn u32_be_bytes(x: int) -> Seq<u8>
    recommends
        0 <= x < 0x100000000,
{
    seq![
        (x / 0x1000000 % 0x100) as u8,
        (x / 0x10000 % 0x100) as u8,
        (x / 0x100 % 0x100) as u8,
        (x % 0x100) as u8,
    ]
}

/// Appends `x` to `dst` as four big-endian bytes.
pub fn push_u32_be(dst: &mut Vec<u8>, x: u32)
    ensures
        final(dst)@ == old(dst)@ + u32_be_bytes(x as int),
{
    dst.push((x / 0x1000000 % 0x100) as u8);
    dst.push((x / 0x10000 % 0x100) as u8);
    dst.push((x / 0x100 % 0x100) as u8);
    dst.push((x % 0x100) as u8);
    proof {
        assert(dst@ =~= old(dst)@ + u32_be_bytes(x as int));
    }
}

/// The index of the first 0 byte of `s`, or -1 if `s` holds none.
pub open spec fn find_zero(s: Seq<u8>) -> int
    decreases s.len(),
{
    if s.len() == 0 {
        -1
    } else if s[0] == 0 {
        0
    } else if find_zero(s.skip(1)) < 0 {
        -1
    } else {
        find_zero(s.skip(1)) + 1
    }
}

/// `find_zero` names the first 0 byte: it is in range, it is a 0 byte, and
/// nothing before it is one; a negative result means there is no 0 byte.
pub proof fn lemma_find_zero(s: Seq<u8>)
    ensures
        find_zero(s) >= 0 ==> find_zero(s) < s.len() && s[find_zero(s)] == 0,
        find_zero(s) >= 0 ==> forall|j: int| 0 <= j < find_zero(s) ==> s[j] != 0,
        find_zero(s) < 0 ==> forall|j: int| 0 <= j < s.len() ==> s[j] != 0,
    decreases s.len(),
{
    if s.len() > 0 && s[0] != 0 {
        lemma_find_zero(s.skip(1));
        assert forall|j: int| 0 <= j < find_zero(s) implies s[j] != 0 by {
            if j > 0 {
                assert(s.skip(1)[j - 1] == s[j]);
            }
        }
        assert forall|j: int| find_zero(s) < 0 && 0 <= j < s.len() implies s[j] != 0 by {
            if j > 0 {
                assert(s.skip(1)[j - 1] == s[j]);
            }
        }
    }
}

/// A message header: a tag byte and a signed 32-bit length that counts the
/// length field itself, so a well-formed header has `len >= 4`.
#[derive(Debug, Copy, Clone)]
pub struct Header {
    tag: u8,
    len: i32,
}

impl Header {
    /// The tag byte, for specifications.
    pub closed spec fn spec_tag(self) -> u8 {
        self.tag
    }

    /// The length field, for specifications.
    pub closed spec fn spec_len(self) -> i32 {
        self.len
    }

    /// Parses a header from the first five bytes of `buf`: `None` when fewer
    /// than five bytes are available, an error when the length field is
    /// below 4.
    pub fn parse(buf: &[u8]) -> (r: Result<Option<Header>, DecodeError>)
        ensures
            buf@.len() < 5 ==> r == Ok::<Option<Header>, DecodeError>(None),
            buf@.len() >= 5 && be_i32_at(buf@, 1) < 4 ==> r == Err::<Option<Header>, DecodeError>(
                DecodeError::InvalidLength,
            ),
            buf@.len() >= 5 && be_i32_at(buf@, 1) >= 4 ==> (r matches Ok(Some(h)) && h.spec_tag()
                == buf@[0] && h.spec_len() == be_i32_at(buf@, 1)),
    {
        if buf.len() < 5 {
            return Ok(None);
        }
        let tag = buf[0];
        let len = read_be_i32(buf, 1);
        if len < 4 {
            return Err(DecodeError::InvalidLength);
        }
        Ok(Some(Header { tag, len }))
    }

    /// The tag byte.
    pub fn tag(self) -> (r: u8)
        ensures
            r == self.spec_tag(),
    {
        self.tag
    }

    /// The length, counting the length field itself.
    pub fn len(self) -> (r: i32)
        ensures
            r == self.spec_len(),
    {
        self.len
    }
}

/// A read cursor over an immutable byte buffer: `idx` bytes have been
/// consumed, the rest are still to be read.
pub struct Buffer {
    pub bytes: Vec<u8>,
    pub idx: usize,
}

impl Buffer {
    /// The cursor never points past the end of the buffer.
    pub open spec fn wf(self) -> bool {
        self.idx <= self.bytes@.len()
    }

    /// The bytes still to be read.
    pub open spec fn remaining(self) -> Seq<u8> {
        self.bytes@.skip(self.idx as int)
    }

    /// A view of the unread bytes.
    pub fn slice(&self) -> (r: &[u8])
        requires
            self.wf(),
        ensures
            r@ == self.remaining(),
    {
        vstd::slice::slice_subrange(self.bytes.as_slice(), self.idx, self.bytes.len())
    }

    /// Whether every byte has been read.
    pub fn is_empty(&self) -> (r: bool)
        requires
            self.wf(),
        ensures
            r == (self.remaining().len() == 0),
    {
        self.idx == self.bytes.len()
    }

    /// Reads the bytes strictly before the next 0 byte and steps the cursor
    /// past that terminator; fails when no 0 byte remains.
    pub fn read_cstr(&mut self) -> (r: Result<Vec<u8>, DecodeError>)
        requires
            old(self).wf(),
        ensures
            final(self).bytes == old(self).bytes,
            final(self).wf(),
            r matches Ok(v) ==> {
                &&& find_zero(old(self).remaining()) >= 0
                &&& v@ == old(self).remaining().take(find_zero(old(self).remaining()))
                &&& final(self).idx == old(self).idx + find_zero(old(self).remaining()) + 1
            },
            r is Err ==> r == Err::<Vec<u8>, DecodeError>(DecodeError::UnexpectedEof) && find_zero(
                old(self).remaining(),
            ) < 0 && final(self).idx == old(self).idx,
    {
        proof {
            lemma_find_zero(self.remaining());
        }
        let ghost rem = self.remaining();
        let mut i: usize = self.idx;
        loop
            invariant
                self.wf(),
                old(self).idx <= i <= self.bytes@.len(),
                *self == *old(self),
                rem == self.remaining(),
                forall|j: int| self.idx <= j < i ==> self.bytes@[j] != 0,
            decreases self.bytes@.len() - i,
        {
            if i == self.bytes.len() {
                proof {
                    assert forall|j: int| 0 <= j < rem.len() implies rem[j] != 0 by {
                        assert(rem[j] == self.bytes@[self.idx + j]);
                    }
                    if find_zero(rem) >= 0 {
                        lemma_find_zero(rem);
                    }
                }
                return Err(DecodeError::UnexpectedEof);
            }
            if self.bytes[i] == 0 {
                proof {
                    let z = i - self.idx;
                    assert(rem[z] == 0 && forall|j: int| 0 <= j < z ==> rem[j] != 0) by {
                        assert forall|j: int| 0 <= j < z implies rem[j] != 0 by {
                            assert(rem[j] == self.bytes@[self.idx + j]);
                        }
                    }
                    lemma_find_zero(rem);
                    if find_zero(rem) < z {
                        assert(rem[find_zero(rem)] == 0);
                    }
                    if find_zero(rem) > z {
                        assert(rem[z] != 0);
                    }
                    assert(find_zero(rem) == z);
                }
                let v = vstd::slice::slice_to_vec(
                    vstd::slice::slice_subrange(self.bytes.as_slice(), self.idx, i),
                );
                proof {
                    assert(v@ =~= rem.take(i - self.idx));
                }
                self.idx = i + 1;
                return Ok(v);
            }
            i = i + 1;
        }
    }

    /// Returns every unread byte and moves the cursor to the end.
    pub fn read_all(&mut self) -> (r: Vec<u8>)
        requires
            old(self).wf(),
        ensures
            final(self).bytes == old(self).bytes,
            final(self).idx == final(self).bytes@.len(),
            r@ == old(self).remaining(),
    {
        let r = vstd::slice::slice_to_vec(
            vstd::slice::slice_subrange(self.bytes.as_slice(), self.idx, self.bytes.len()),
        );
        proof {
            assert(r@ =~= self.remaining());
        }
        self.idx = self.bytes.len();
        r
    }

    /// Copies out up to `n` unread bytes and advances the cursor by as many
    /// as were copied.
    pub fn read(&mut self, n: usize) -> (r: Vec<u8>)
        requires
            old(self).wf(),
        ensures
            final(self).bytes == old(self).bytes,
            final(self).wf(),
            r@ == old(self).remaining().take(vstd::math::min(
                n as int,
                old(self).remaining().len() as int,
            )),
            final(self).idx == old(self).idx + r@.len(),
    {
        let avail = self.bytes.len() - self.idx;
        let take = if n < avail {
            n
        } else {
            avail
        };
        let r = vstd::slice::slice_to_vec(
            vstd::slice::slice_subrange(self.bytes.as_slice(), self.idx, self.idx + take),
        );
        proof {
            assert(r@ =~= self.remaining().take(take as int));
        }
        self.idx = self.idx + take;
        r
    }

    /// Reads a big-endian u32 and advances the cursor; fails when fewer than
    /// four bytes remain.
    pub fn read_u32_be(&mut self) -> (r: Result<u32, DecodeError>)
        requires
            old(self).wf(),
        ensures
            final(self).bytes == old(self).bytes,
            final(self).wf(),
            old(self).remaining().len() >= 4 ==> (r matches Ok(v) && v == be_u32_at(
                old(self).remaining(),
                0,
            ) && final(self).idx == old(self).idx + 4),
            old(self).remaining().len() < 4 ==> r == Err::<u32, DecodeError>(
                DecodeError::UnexpectedEof,
            ) && final(self).idx == old(self).idx,
    {
        if self.bytes.len() - self.idx < 4 {
            return Err(DecodeError::UnexpectedEof);
        }
        let v = read_be_u32(self.bytes.as_slice(), self.idx);
        proof {
            let rem = self.remaining();
            assert(rem[0] == self.bytes@[self.idx as int]);
            assert(rem[1] == self.bytes@[self.idx + 1]);
            assert(rem[2] == self.bytes@[self.idx + 2]);
            assert(rem[3] == self.bytes@[self.idx + 3]);
        }
        self.idx = self.idx + 4;
        Ok(v)
    }

    /// Reads a big-endian i32 and advances the cursor; fails when fewer than
    /// four bytes remain.
    pub fn read_i32_be(&mut self) -> (r: Result<i32, DecodeError>)
        requires
            old(self).wf(),
        ensures
            final(self).bytes == old(self).bytes,
            final(self).wf(),
            old(self).remaining().len() >= 4 ==> (r matches Ok(v) && v == be_i32_at(
                old(self).remaining(),
                0,
            ) && final(self).idx == old(self).idx + 4),
            old(self).remaining().len() < 4 ==> r == Err::<i32, DecodeError>(
                DecodeError::UnexpectedEof,
            ) && final(self).idx == old(self).idx,
    {
        if self.bytes.len() - self.idx < 4 {
            return Err(DecodeError::UnexpectedEof);
        }
        let v = read_be_i32(self.bytes.as_slice(), self.idx);
        proof {
            let rem = self.remaining();
            assert(rem[0] == self.bytes@[self.idx as int]);
            assert(rem[1] == self.bytes@[self.idx + 1]);
            assert(rem[2] == self.bytes@[self.idx + 2]);
            assert(rem[3] == self.bytes@[self.idx + 3]);
        }
        self.idx = self.idx + 4;
        Ok(v)
    }
}

} // verus!
