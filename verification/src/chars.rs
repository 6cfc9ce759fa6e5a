//! Decoding the characters of a view, one UTF-8 scalar at a time.

use vstd::prelude::*;
use vstd::utf8::*;
use crate::error::RopeError;
use crate::slice::RopeSlice;
use crate::utf8::{
    decode_unit, lemma_first_scalar_of_prefix, lemma_valid_first_width, spec_utf8_char_width,
    utf8_char_width,
};

verus! {

/// The characters that `bytes` start with, up to the first malformed scalar,
/// each with the offset of its first byte, the offsets counted from `base`.
pub open spec fn char_offsets(bytes: Seq<u8>, base: int) -> Seq<(char, int)>
    decreases bytes.len(),
{
    if bytes.len() == 0 || !valid_first_scalar(bytes) {
        Seq::empty()
    } else {
        seq![(decode_first_scalar(bytes) as char, base)] + char_offsets(
            pop_first_scalar(bytes),
            base + length_of_first_scalar(bytes),
        )
    }
}

/// What one step of decoding must give, from the bytes `bytes` ahead at
/// offset `pos`: nothing at the end; the first character with its offset,
/// and the bytes behind it left ahead; or, where the bytes start with no
/// well-formed scalar, the failure, with nothing left ahead.
pub open spec fn next_post(
    bytes: Seq<u8>,
    pos: int,
    res: Option<Result<(char, usize), RopeError>>,
    rest: Seq<u8>,
    new_pos: int,
) -> bool {
    if bytes.len() == 0 {
        res is None && rest == bytes && new_pos == pos
    } else if valid_first_scalar(bytes) {
        &&& res == Some(Ok::<(char, usize), RopeError>((decode_first_scalar(bytes) as char, pos as usize)))
        &&& rest == pop_first_scalar(bytes)
        &&& new_pos == pos + length_of_first_scalar(bytes)
    } else {
        &&& res == Some(Err::<(char, usize), RopeError>(RopeError::InvalidUtf8))
        &&& rest.len() == 0
        &&& new_pos == pos + bytes.len()
    }
}

/// A pass over the characters of a view. Each step decodes one scalar,
/// wherever its bytes lie: a scalar may span two leaves.
#[derive(Debug)]
pub struct RopeChars<'rope> {
    /// What is left to decode.
    data: RopeSlice<'rope>,
    /// The offset of the next byte, counted from where the pass began.
    abs_byte: usize,
}

impl<'rope> RopeChars<'rope> {
    /// The bytes that are left to decode.
    pub closed spec fn remaining(&self) -> Seq<u8> {
        self.data@
    }

    /// The offset of the next byte, counted from where the pass began.
    pub closed spec fn position(&self) -> int {
        self.abs_byte as int
    }

    /// The view ahead is well formed, and the offset of its end fits a
    /// length.
    pub closed spec fn wf(&self) -> bool {
        self.data.wf() && self.abs_byte + self.data@.len() <= usize::MAX
    }

    /// A pass over the characters of `data`, from offset 0.
    pub fn new(data: RopeSlice<'rope>) -> (it: Self)
        requires
            data.wf(),
        ensures
            it.wf(),
            it.remaining() == data@,
            it.position() == 0,
    {
        proof {
            data.lemma_len_bound();
        }
        RopeChars { data, abs_byte: 0 }
    }

    /// Gives up the pass: nothing is left ahead, and the offset is that of
    /// the end.
    fn fail(&mut self) -> (res: Option<Result<(char, usize), RopeError>>)
        requires
            old(self).wf(),
        ensures
            final(self).wf(),
            res == Some(Err::<(char, usize), RopeError>(RopeError::InvalidUtf8)),
            final(self).remaining().len() == 0,
            final(self).position() == old(self).position() + old(self).remaining().len(),
    {
        let left = self.data.len();
        self.abs_byte = self.abs_byte + left;
        self.data.clear();
        Some(Err(RopeError::InvalidUtf8))
    }

    /// Reads the next byte, where the view has one.
    fn read_byte(&mut self) -> (res: Option<u8>)
        requires
            old(self).wf(),
        ensures
            final(self).wf(),
            old(self).remaining().len() == 0 ==> {
                &&& res is None
                &&& final(self).remaining() == old(self).remaining()
                &&& final(self).position() == old(self).position()
            },
            old(self).remaining().len() > 0 ==> {
                &&& res == Some(old(self).remaining()[0])
                &&& final(self).remaining() == old(self).remaining().skip(1)
                &&& final(self).position() == old(self).position() + 1
            },
    {
        match self.data.next() {
            Some(byte) => {
                self.abs_byte = self.abs_byte + 1;
                Some(byte)
            },
            None => None,
        }
    }

    /// Decodes the next character and returns it with the offset of its
    /// first byte. A malformed scalar ends the pass with a failure.
    pub fn next(&mut self) -> (res: Option<Result<(char, usize), RopeError>>)
        requires
            old(self).wf(),
        ensures
            final(self).wf(),
            next_post(
                old(self).remaining(),
                old(self).position(),
                res,
                final(self).remaining(),
                final(self).position(),
            ),
    {
        let ghost bytes = self.remaining();
        let byte = self.abs_byte;
        let b0 = match self.read_byte() {
            Some(b) => b,
            None => {
                return None;
            },
        };
        let width = utf8_char_width(b0);
        proof {
            if valid_first_scalar(bytes) {
                lemma_valid_first_width(bytes);
            }
        }
        if width == 0 {
            return self.fail();
        }
        let mut unit: [u8; 4] = [b0, 0, 0, 0];
        let mut have: usize = 1;
        while have < width
            invariant_except_break
                self.wf(),
                bytes == old(self).remaining(),
                byte == old(self).position(),
                bytes.len() > 0,
                width == spec_utf8_char_width(bytes[0]),
                valid_first_scalar(bytes) ==> width <= bytes.len(),
                1 <= have <= width <= 4,
                have <= bytes.len(),
                self.remaining() == bytes.skip(have as int),
                self.position() == byte + have,
                forall|i: int| 0 <= i < have ==> unit@[i] == bytes[i],
            ensures
                have == width,
                have <= bytes.len(),
                self.wf(),
                self.remaining() == bytes.skip(have as int),
                self.position() == byte + have,
                forall|i: int| 0 <= i < have ==> unit@[i] == bytes[i],
            decreases width - have,
        {
            match self.read_byte() {
                Some(b) => {
                    unit[have] = b;
                    have = have + 1;
                    proof {
                        assert(bytes.skip(have - 1).skip(1) =~= bytes.skip(have as int));
                    }
                },
                None => {
                    // The view ends within the scalar.
                    return self.fail();
                },
            }
        }
        proof {
            lemma_first_scalar_of_prefix(bytes, width as int);
            assert(seq![unit@[0], unit@[1], unit@[2], unit@[3]].subrange(0, width as int) =~= bytes.subrange(
                0,
                width as int,
            ));
        }
        match decode_unit(unit[0], unit[1], unit[2], unit[3], width) {
            Some(c) => Some(Ok((c, byte))),
            None => self.fail(),
        }
    }

    /// All that is left of the pass: the characters with their offsets, or
    /// the failure where the bytes ahead are not UTF-8.
    pub fn collect(&mut self) -> (res: Result<Vec<(char, usize)>, RopeError>)
        requires
            old(self).wf(),
        ensures
            final(self).wf(),
            final(self).remaining().len() == 0,
            valid_utf8(old(self).remaining()) ==> res is Ok && items(res->Ok_0@) == char_offsets(
                old(self).remaining(),
                old(self).position(),
            ),
            !valid_utf8(old(self).remaining()) ==> res is Err && res->Err_0 == RopeError::InvalidUtf8,
    {
        let ghost bytes = self.remaining();
        let ghost base = self.position();
        let mut out: Vec<(char, usize)> = Vec::new();
        assert(items(out@) =~= Seq::<(char, int)>::empty());
        loop
            invariant
                self.wf(),
                bytes == old(self).remaining(),
                base == old(self).position(),
                valid_utf8(bytes) == valid_utf8(self.remaining()),
                items(out@) + char_offsets(self.remaining(), self.position()) == char_offsets(bytes, base),
            decreases self.remaining().len(),
        {
            let ghost ahead = self.remaining();
            let ghost pos = self.position();
            let ghost done = out@;
            match self.next() {
                None => {
                    assert(items(out@) =~= char_offsets(bytes, base));
                    return Ok(out);
                },
                Some(Ok(item)) => {
                    out.push(item);
                    proof {
                        lemma_valid_first_width(ahead);
                        assert(items(out@) =~= items(done) + seq![(item.0, item.1 as int)]);
                        assert(items(out@) + char_offsets(self.remaining(), self.position()) =~= items(done)
                            + char_offsets(ahead, pos));
                    }
                },
                Some(Err(e)) => {
                    return Err(e);
                },
            }
        }
    }
}

/// The items of a pass with their offsets as numbers.
pub open spec fn items(v: Seq<(char, usize)>) -> Seq<(char, int)> {
    Seq::new(v.len(), |i: int| (v[i].0, v[i].1 as int))
}

} // verus!
