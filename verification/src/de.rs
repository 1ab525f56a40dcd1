use vstd::prelude::*;
use vstd::slice::{slice_index_get, slice_subrange};
use vstd::utf8::{decode_utf8, valid_utf8};

use crate::error::Error;
use crate::grammar::{
    be_uint, is_string_tag, spec_parse_bool, spec_parse_string, spec_read_scalar, TAG_CLOSE,
    TAG_MAP_OPEN, TAG_SEQ_OPEN, TAG_STR16, TAG_STR32, TAG_STR64, TAG_STR8, TAG_FALSE, TAG_TRUE,
};

verus! {

broadcast use vstd::seq::group_seq_axioms, vstd::slice::group_slice_axioms;

/// Relies on core::str::from_utf8: it returns `Ok` exactly when the bytes
/// are valid UTF-8, and the returned string slice views those same bytes.
#[verifier::external_body]
fn utf8_check<'a>(v: &'a [u8]) -> (r: Option<&'a str>)
    ensures
        r is Some <==> valid_utf8(v@),
        r matches Some(s) ==> s@ == decode_utf8(v@),
{
    core::str::from_utf8(v).ok()
}

/// The cursor over a borrowed input buffer: the bytes before `pos` have
/// been consumed, the bytes from `pos` on are still to be decoded. The
/// cursor only ever advances; the buffer itself is never mutated.
pub struct Deserializer<'de> {
    pub input: &'de [u8],
    pub pos: usize,
}

impl<'de> Deserializer<'de> {
    /// The bytes not yet consumed.
    pub open spec fn remaining(self) -> Seq<u8> {
        self.input@.skip(self.pos as int)
    }

    /// The cursor stands inside (or exactly at the end of) the buffer.
    pub open spec fn wf(self) -> bool {
        self.pos <= self.input@.len()
    }

    /// A fresh cursor over the whole input.
    pub fn from_bytes(input: &'de [u8]) -> (r: Self)
        ensures
            r.wf(),
            r.remaining() == input@,
            r.input == input,
            r.pos == 0,
    {
        let r = Deserializer { input, pos: 0 };
        proof {
            assert(r.remaining() =~= input@);
        }
        r
    }

    /// The next undecoded byte, without advancing.
    pub fn peek(&self) -> (r: Result<u8, Error>)
        requires
            self.wf(),
        ensures
            self.remaining().len() > 0 ==> r == Ok::<u8, Error>(self.remaining()[0]),
            self.remaining().len() == 0 ==> r == Err::<u8, Error>(Error::UnexpectedEnd),
    {
        if self.pos < self.input.len() {
            Ok(*slice_index_get(self.input, self.pos))
        } else {
            Err(Error::UnexpectedEnd)
        }
    }

    /// Drop the first `num` undecoded bytes; the caller must already have
    /// verified that they are available.
    pub fn consume(&mut self, num: usize)
        requires
            old(self).wf(),
            num <= old(self).remaining().len(),
        ensures
            final(self).wf(),
            final(self).input == old(self).input,
            final(self).pos == old(self).pos + num,
            final(self).remaining() == old(self).remaining().skip(num as int),
    {
        let total = self.input.len();
        proof {
            assert(old(self).pos + num <= total);
        }
        self.pos = self.pos + num;
        proof {
            assert(self.remaining() =~= old(self).remaining().skip(num as int));
        }
    }

    /// Drop the next undecoded byte.
    pub fn advance(&mut self)
        requires
            old(self).wf(),
            old(self).remaining().len() >= 1,
        ensures
            final(self).wf(),
            final(self).input == old(self).input,
            final(self).pos == old(self).pos + 1,
            final(self).remaining() == old(self).remaining().skip(1),
    {
        self.consume(1);
    }

    /// Succeeds exactly when at least `num` undecoded bytes remain.
    pub fn has(&self, num: usize) -> (r: Result<(), Error>)
        requires
            self.wf(),
        ensures
            self.remaining().len() >= num ==> r == Ok::<(), Error>(()),
            self.remaining().len() < num ==> r == Err::<(), Error>(Error::UnexpectedEnd),
    {
        if self.input.len() - self.pos >= num {
            Ok(())
        } else {
            Err(Error::UnexpectedEnd)
        }
    }

    /// The next undecoded byte, consuming it.
    pub fn next_byte(&mut self) -> (r: Result<u8, Error>)
        requires
            old(self).wf(),
        ensures
            final(self).wf(),
            final(self).input == old(self).input,
            old(self).remaining().len() > 0 ==> r == Ok::<u8, Error>(old(self).remaining()[0])
                && final(self).pos == old(self).pos + 1,
            old(self).remaining().len() == 0 ==> r == Err::<u8, Error>(Error::UnexpectedEnd)
                && final(self).pos == old(self).pos,
    {
        let ch = match self.peek() {
            Ok(c) => c,
            Err(e) => {
                return Err(e);
            },
        };
        self.advance();
        Ok(ch)
    }

    /// Does the next byte select one of the five string length classes?
    pub fn peek_is_string(&self) -> (r: Result<bool, Error>)
        requires
            self.wf(),
        ensures
            self.remaining().len() > 0 ==> r == Ok::<bool, Error>(
                is_string_tag(self.remaining()[0]),
            ),
            self.remaining().len() == 0 ==> r == Err::<bool, Error>(Error::UnexpectedEnd),
    {
        let ch = match self.peek() {
            Ok(c) => c,
            Err(e) => {
                return Err(e);
            },
        };
        Ok(ch & 0xc0 == 0x80 || ch == TAG_STR8 || ch == TAG_STR16 || ch == TAG_STR32 || ch
            == TAG_STR64)
    }

    /// Is the next byte the container-close tag?
    pub fn peek_is_close(&self) -> (r: Result<bool, Error>)
        requires
            self.wf(),
        ensures
            self.remaining().len() > 0 ==> r == Ok::<bool, Error>(
                self.remaining()[0] == TAG_CLOSE,
            ),
            self.remaining().len() == 0 ==> r == Err::<bool, Error>(Error::UnexpectedEnd),
    {
        let ch = match self.peek() {
            Ok(c) => c,
            Err(e) => {
                return Err(e);
            },
        };
        Ok(ch == TAG_CLOSE)
    }

    /// A boolean value: one of the two boolean tags.
    pub fn parse_bool(&mut self) -> (r: Result<bool, Error>)
        requires
            old(self).wf(),
        ensures
            final(self).wf(),
            final(self).input == old(self).input,
            old(self).pos <= final(self).pos,
            match r {
                Ok(b) => spec_parse_bool(old(self).remaining()) matches Ok(p) && p.0 == b
                    && final(self).pos == old(self).pos + p.1,
                Err(e) => spec_parse_bool(old(self).remaining()) matches Err(e2) && e2 == e
                    && final(self).pos == old(self).pos,
            },
    {
        let ch = match self.peek() {
            Ok(c) => c,
            Err(e) => {
                return Err(e);
            },
        };
        if ch == TAG_TRUE {
            self.advance();
            Ok(true)
        } else if ch == TAG_FALSE {
            self.advance();
            Ok(false)
        } else {
            Err(Error::ExpectedBoolean)
        }
    }

    /// One raw big-endian byte.
    pub fn _parse_u8(&mut self) -> (r: Result<u8, Error>)
        requires
            old(self).wf(),
        ensures
            final(self).wf(),
            final(self).input == old(self).input,
            match r {
                Ok(x) => old(self).remaining().len() >= 1 && x as nat == be_uint(
                    old(self).remaining().take(1),
                ) && final(self).pos == old(self).pos + 1,
                Err(e) => old(self).remaining().len() == 0 && e == Error::UnexpectedEnd && final(self).pos == old(self).pos,
            },
    {
        let x = match self.next_byte() {
            Ok(c) => c,
            Err(e) => {
                return Err(e);
            },
        };
        proof {
            crate::grammar::lemma_be_uint_take_succ(old(self).remaining(), 1);
            assert(old(self).remaining().take(0) =~= Seq::<u8>::empty());
        }
        Ok(x)
    }

    /// Two raw bytes as a big-endian unsigned integer.
    pub fn _parse_u16(&mut self) -> (r: Result<u16, Error>)
        requires
            old(self).wf(),
        ensures
            final(self).wf(),
            final(self).input == old(self).input,
            match r {
                Ok(x) => old(self).remaining().len() >= 2 && x as nat == be_uint(
                    old(self).remaining().take(2),
                ) && final(self).pos == old(self).pos + 2,
                Err(e) => old(self).remaining().len() < 2 && e == Error::UnexpectedEnd && final(self).pos == old(self).pos,
            },
    {
        if let Err(e) = self.has(2) {
            return Err(e);
        }
        let ghost rem = old(self).remaining();
        let b0 = match self.next_byte() {
            Ok(c) => c,
            Err(e) => {
                return Err(e);
            },
        };
        let b1 = match self.next_byte() {
            Ok(c) => c,
            Err(e) => {
                return Err(e);
            },
        };
        let res: u16 = ((b0 as u16) << 8) | (b1 as u16);
        proof {
            lemma_be_uint_take_prefixes(rem);
            assert(b1 == rem[1]) by {
                assert(rem.skip(1)[0] == rem[1]);
            }
            assert(res as nat == b0 as nat * 256 + b1 as nat) by (bit_vector)
                requires
                    res == ((b0 as u16) << 8) | (b1 as u16),
            ;
        }
        Ok(res)
    }

    /// Four raw bytes as a big-endian unsigned integer.
    pub fn _parse_u32(&mut self) -> (r: Result<u32, Error>)
        requires
            old(self).wf(),
        ensures
            final(self).wf(),
            final(self).input == old(self).input,
            match r {
                Ok(x) => old(self).remaining().len() >= 4 && x as nat == be_uint(
                    old(self).remaining().take(4),
                ) && final(self).pos == old(self).pos + 4,
                Err(e) => old(self).remaining().len() < 4 && e == Error::UnexpectedEnd && final(self).pos == old(self).pos,
            },
    {
        if let Err(e) = self.has(4) {
            return Err(e);
        }
        let ghost rem = old(self).remaining();
        let b0 = match self.next_byte() {
            Ok(c) => c,
            Err(e) => {
                return Err(e);
            },
        };
        let b1 = match self.next_byte() {
            Ok(c) => c,
            Err(e) => {
                return Err(e);
            },
        };
        let b2 = match self.next_byte() {
            Ok(c) => c,
            Err(e) => {
                return Err(e);
            },
        };
        let b3 = match self.next_byte() {
            Ok(c) => c,
            Err(e) => {
                return Err(e);
            },
        };
        let res: u32 = ((b0 as u32) << 24) | ((b1 as u32) << 16) | ((b2 as u32) << 8) | (
        b3 as u32);
        proof {
            lemma_be_uint_take_prefixes(rem);
            assert(b1 == rem[1] && b2 == rem[2] && b3 == rem[3]) by {
                assert(rem.skip(1)[0] == rem[1]);
                assert(rem.skip(2)[0] == rem[2]);
                assert(rem.skip(3)[0] == rem[3]);
            }
            assert(res as nat == ((b0 as nat * 256 + b1 as nat) * 256 + b2 as nat) * 256
                + b3 as nat) by (bit_vector)
                requires
                    res == ((b0 as u32) << 24) | ((b1 as u32) << 16) | ((b2 as u32) << 8) | (
                    b3 as u32),
            ;
        }
        Ok(res)
    }

    /// Eight raw bytes as a big-endian unsigned integer.
    pub fn _parse_u64(&mut self) -> (r: Result<u64, Error>)
        requires
            old(self).wf(),
        ensures
            final(self).wf(),
            final(self).input == old(self).input,
            match r {
                Ok(x) => old(self).remaining().len() >= 8 && x as nat == be_uint(
                    old(self).remaining().take(8),
                ) && final(self).pos == old(self).pos + 8,
                Err(e) => old(self).remaining().len() < 8 && e == Error::UnexpectedEnd && final(self).pos == old(self).pos,
            },
    {
        if let Err(e) = self.has(8) {
            return Err(e);
        }
        let ghost rem = old(self).remaining();
        let b0 = match self.next_byte() {
            Ok(c) => c,
            Err(e) => {
                return Err(e);
            },
        };
        let b1 = match self.next_byte() {
            Ok(c) => c,
            Err(e) => {
                return Err(e);
            },
        };
        let b2 = match self.next_byte() {
            Ok(c) => c,
            Err(e) => {
                return Err(e);
            },
        };
        let b3 = match self.next_byte() {
            Ok(c) => c,
            Err(e) => {
                return Err(e);
            },
        };
        let b4 = match self.next_byte() {
            Ok(c) => c,
            Err(e) => {
                return Err(e);
            },
        };
        let b5 = match self.next_byte() {
            Ok(c) => c,
            Err(e) => {
                return Err(e);
            },
        };
        let b6 = match self.next_byte() {
            Ok(c) => c,
            Err(e) => {
                return Err(e);
            },
        };
        let b7 = match self.next_byte() {
            Ok(c) => c,
            Err(e) => {
                return Err(e);
            },
        };
        let res: u64 = ((b0 as u64) << 56) | ((b1 as u64) << 48) | ((b2 as u64) << 40) | ((
        b3 as u64) << 32) | ((b4 as u64) << 24) | ((b5 as u64) << 16) | ((b6 as u64) << 8) | (
        b7 as u64);
        proof {
            lemma_be_uint_take_prefixes(rem);
            assert(b1 == rem[1] && b2 == rem[2] && b3 == rem[3] && b4 == rem[4] && b5 == rem[5]
                && b6 == rem[6] && b7 == rem[7]) by {
                assert(rem.skip(1)[0] == rem[1]);
                assert(rem.skip(2)[0] == rem[2]);
                assert(rem.skip(3)[0] == rem[3]);
                assert(rem.skip(4)[0] == rem[4]);
                assert(rem.skip(5)[0] == rem[5]);
                assert(rem.skip(6)[0] == rem[6]);
                assert(rem.skip(7)[0] == rem[7]);
            }
            assert(res as nat == ((((((b0 as nat * 256 + b1 as nat) * 256 + b2 as nat) * 256
                + b3 as nat) * 256 + b4 as nat) * 256 + b5 as nat) * 256 + b6 as nat) * 256
                + b7 as nat) by (bit_vector)
                requires
                    res == ((b0 as u64) << 56) | ((b1 as u64) << 48) | ((b2 as u64) << 40) | ((
                    b3 as u64) << 32) | ((b4 as u64) << 24) | ((b5 as u64) << 16) | ((b6 as u64)
                        << 8) | (b7 as u64),
            ;
        }
        Ok(res)
    }

    /// A string value: a length-class tag, the class's length field, and
    /// that many bytes of UTF-8 content, borrowed from the input buffer.
    /// The string length-class header at the cursor: the tag byte and the
    /// class's length field, consumed; yields the declared content length.
    fn parse_string_header(&mut self) -> (r: Result<usize, Error>)
        requires
            old(self).wf(),
        ensures
            final(self).wf(),
            final(self).input == old(self).input,
            old(self).pos <= final(self).pos,
            match r {
                Ok(len) => crate::grammar::spec_string_header(old(self).remaining()) matches Ok(p)
                    && p.0 == len as nat && final(self).pos == old(self).pos + p.1,
                Err(e) => crate::grammar::spec_string_header(old(self).remaining()) matches Err(e2)
                    && e2 == e,
            },
    {
        let ghost rem = old(self).remaining();
        let ch = match self.peek() {
            Ok(c) => c,
            Err(e) => {
                return Err(e);
            },
        };
        if ch & 0xc0 == 0x80 {
            self.advance();
            Ok((ch & 0x3f) as usize)
        } else if ch == TAG_STR8 {
            self.advance();
            let l = match self._parse_u8() {
                Ok(v) => v,
                Err(e) => {
                    return Err(e);
                },
            };
            proof {
                assert(rem.skip(1).take(1) =~= rem.subrange(1, 2));
            }
            Ok(l as usize)
        } else if ch == TAG_STR16 {
            self.advance();
            let l = match self._parse_u16() {
                Ok(v) => v,
                Err(e) => {
                    return Err(e);
                },
            };
            proof {
                assert(rem.skip(1).take(2) =~= rem.subrange(1, 3));
            }
            Ok(l as usize)
        } else if ch == TAG_STR32 {
            self.advance();
            let l = match self._parse_u32() {
                Ok(v) => v,
                Err(e) => {
                    return Err(e);
                },
            };
            proof {
                assert(rem.skip(1).take(4) =~= rem.subrange(1, 5));
            }
            Ok(l as usize)
        } else if ch == TAG_STR64 {
            self.advance();
            let l = match self._parse_u64() {
                Ok(v) => v,
                Err(e) => {
                    return Err(e);
                },
            };
            proof {
                assert(rem.skip(1).take(8) =~= rem.subrange(1, 9));
            }
            if l > usize::MAX as u64 {
                return Err(Error::TooLarge);
            }
            Ok(l as usize)
        } else {
            Err(Error::ExpectedString)
        }
    }

    /// A string value: a length-class tag, the class's length field, and
    /// that many bytes of UTF-8 content, borrowed from the input buffer.
    pub fn parse_string(&mut self) -> (r: Result<&'de str, Error>)
        requires
            old(self).wf(),
        ensures
            final(self).wf(),
            final(self).input == old(self).input,
            old(self).pos <= final(self).pos,
            match r {
                Ok(s) => spec_parse_string(old(self).remaining()) matches Ok(p) && p.0 == s@
                    && final(self).pos == old(self).pos + p.1,
                Err(e) => spec_parse_string(old(self).remaining()) matches Err(e2) && e2 == e,
            },
    {
        let ghost rem = old(self).remaining();
        let len = match self.parse_string_header() {
            Ok(l) => l,
            Err(e) => {
                return Err(e);
            },
        };
        let ghost hdr = self.pos - old(self).pos;
        proof {
            assert(self.remaining() =~= rem.skip(hdr));
        }
        if let Err(e) = self.has(len) {
            return Err(e);
        }
        let total = self.input.len();
        proof {
            assert(self.pos + len <= total);
        }
        let content = slice_subrange(self.input, self.pos, self.pos + len);
        proof {
            assert(content@ =~= rem.subrange(hdr, hdr + len as int));
        }
        match utf8_check(content) {
            None => Err(Error::Syntax),
            Some(s) => {
                self.consume(len);
                Ok(s)
            },
        }
    }

    /// A tagged fixed-width scalar: the given tag byte followed by `width`
    /// big-endian payload bytes.
    pub fn read_scalar(&mut self, tag: u8, width: usize) -> (r: Result<u64, Error>)
        requires
            old(self).wf(),
            width == 1 || width == 2 || width == 4 || width == 8,
        ensures
            final(self).wf(),
            final(self).input == old(self).input,
            old(self).pos <= final(self).pos,
            match r {
                Ok(x) => spec_read_scalar(old(self).remaining(), tag, width as int) matches Ok(p)
                    && p.0 == x as nat && final(self).pos == old(self).pos + p.1 && (width == 1
                    ==> x < 0x100) && (width == 2 ==> x < 0x10000) && (width == 4 ==> x
                    < 0x1_0000_0000),
                Err(e) => spec_read_scalar(old(self).remaining(), tag, width as int) matches Err(
                    e2,
                ) && e2 == e,
            },
    {
        let ghost rem = old(self).remaining();
        let t = match self.peek() {
            Ok(c) => c,
            Err(e) => {
                return Err(e);
            },
        };
        if t != tag {
            return Err(Error::Syntax);
        }
        self.advance();
        let v: u64;
        if width == 1 {
            let x = match self._parse_u8() {
                Ok(x) => x,
                Err(e) => {
                    return Err(e);
                },
            };
            v = x as u64;
        } else if width == 2 {
            let x = match self._parse_u16() {
                Ok(x) => x,
                Err(e) => {
                    return Err(e);
                },
            };
            v = x as u64;
        } else if width == 4 {
            let x = match self._parse_u32() {
                Ok(x) => x,
                Err(e) => {
                    return Err(e);
                },
            };
            v = x as u64;
        } else {
            let x = match self._parse_u64() {
                Ok(x) => x,
                Err(e) => {
                    return Err(e);
                },
            };
            v = x;
        }
        proof {
            assert(rem.skip(1).take(width as int) =~= rem.subrange(1, 1 + width as int));
        }
        Ok(v)
    }

    /// The sequence-open tag, consumed. A byte other than the open tag is
    /// still consumed, as the grammar has already committed to a sequence.
    pub fn read_seq_open(&mut self) -> (r: Result<(), Error>)
        requires
            old(self).wf(),
        ensures
            final(self).wf(),
            final(self).input == old(self).input,
            old(self).remaining().len() == 0 ==> r == Err::<(), Error>(Error::UnexpectedEnd)
                && final(self).pos == old(self).pos,
            old(self).remaining().len() > 0 && old(self).remaining()[0] == TAG_SEQ_OPEN ==> r
                == Ok::<(), Error>(()) && final(self).pos == old(self).pos + 1,
            old(self).remaining().len() > 0 && old(self).remaining()[0] != TAG_SEQ_OPEN ==> r
                == Err::<(), Error>(Error::ExpectedArray) && final(self).pos == old(self).pos + 1,
    {
        let b = match self.next_byte() {
            Ok(c) => c,
            Err(e) => {
                return Err(e);
            },
        };
        if b == TAG_SEQ_OPEN {
            Ok(())
        } else {
            Err(Error::ExpectedArray)
        }
    }

    /// The map-open tag, consumed. A byte other than the open tag is still
    /// consumed, as the grammar has already committed to a map.
    pub fn read_map_open(&mut self) -> (r: Result<(), Error>)
        requires
            old(self).wf(),
        ensures
            final(self).wf(),
            final(self).input == old(self).input,
            old(self).remaining().len() == 0 ==> r == Err::<(), Error>(Error::UnexpectedEnd)
                && final(self).pos == old(self).pos,
            old(self).remaining().len() > 0 && old(self).remaining()[0] == TAG_MAP_OPEN ==> r
                == Ok::<(), Error>(()) && final(self).pos == old(self).pos + 1,
            old(self).remaining().len() > 0 && old(self).remaining()[0] != TAG_MAP_OPEN ==> r
                == Err::<(), Error>(Error::ExpectedMap) && final(self).pos == old(self).pos + 1,
    {
        let b = match self.next_byte() {
            Ok(c) => c,
            Err(e) => {
                return Err(e);
            },
        };
        if b == TAG_MAP_OPEN {
            Ok(())
        } else {
            Err(Error::ExpectedMap)
        }
    }

    /// The container-close tag, consumed. A byte other than the close tag
    /// is still consumed; the decode aborts right after.
    pub fn read_close(&mut self) -> (r: Result<(), Error>)
        requires
            old(self).wf(),
        ensures
            final(self).wf(),
            final(self).input == old(self).input,
            old(self).remaining().len() == 0 ==> r == Err::<(), Error>(Error::UnexpectedEnd)
                && final(self).pos == old(self).pos,
            old(self).remaining().len() > 0 && old(self).remaining()[0] == TAG_CLOSE ==> r
                == Ok::<(), Error>(()) && final(self).pos == old(self).pos + 1,
            old(self).remaining().len() > 0 && old(self).remaining()[0] != TAG_CLOSE ==> r
                == Err::<(), Error>(Error::ExpectedSequenceEnd) && final(self).pos == old(self).pos + 1,
    {
        let b = match self.next_byte() {
            Ok(c) => c,
            Err(e) => {
                return Err(e);
            },
        };
        if b == TAG_CLOSE {
            Ok(())
        } else {
            Err(Error::ExpectedSequenceEnd)
        }
    }
}

/// Unfolds the big-endian value of every prefix of the first eight bytes.
proof fn lemma_be_uint_take_prefixes(s: Seq<u8>)
    ensures
        be_uint(s.take(0)) == 0,
        s.len() >= 1 ==> be_uint(s.take(1)) == s[0],
        s.len() >= 2 ==> be_uint(s.take(2)) == s[0] * 256 + s[1],
        s.len() >= 3 ==> be_uint(s.take(3)) == (s[0] * 256 + s[1]) * 256 + s[2],
        s.len() >= 4 ==> be_uint(s.take(4)) == ((s[0] * 256 + s[1]) * 256 + s[2]) * 256 + s[3],
        s.len() >= 5 ==> be_uint(s.take(5)) == (((s[0] * 256 + s[1]) * 256 + s[2]) * 256 + s[3])
            * 256 + s[4],
        s.len() >= 6 ==> be_uint(s.take(6)) == ((((s[0] * 256 + s[1]) * 256 + s[2]) * 256 + s[3])
            * 256 + s[4]) * 256 + s[5],
        s.len() >= 7 ==> be_uint(s.take(7)) == (((((s[0] * 256 + s[1]) * 256 + s[2]) * 256 + s[3])
            * 256 + s[4]) * 256 + s[5]) * 256 + s[6],
        s.len() >= 8 ==> be_uint(s.take(8)) == ((((((s[0] * 256 + s[1]) * 256 + s[2]) * 256 + s[3])
            * 256 + s[4]) * 256 + s[5]) * 256 + s[6]) * 256 + s[7],
{
    assert(s.take(0) =~= Seq::<u8>::empty());
    if s.len() >= 1 {
        crate::grammar::lemma_be_uint_take_succ(s, 1);
    }
    if s.len() >= 2 {
        crate::grammar::lemma_be_uint_take_succ(s, 2);
    }
    if s.len() >= 3 {
        crate::grammar::lemma_be_uint_take_succ(s, 3);
    }
    if s.len() >= 4 {
        crate::grammar::lemma_be_uint_take_succ(s, 4);
    }
    if s.len() >= 5 {
        crate::grammar::lemma_be_uint_take_succ(s, 5);
    }
    if s.len() >= 6 {
        crate::grammar::lemma_be_uint_take_succ(s, 6);
    }
    if s.len() >= 7 {
        crate::grammar::lemma_be_uint_take_succ(s, 7);
    }
    if s.len() >= 8 {
        crate::grammar::lemma_be_uint_take_succ(s, 8);
    }
}

} // verus!
