//! The buffer: a tree of leaves over an arena that it owns.

use std::ops::Range;
use vstd::prelude::*;
use vstd::pervasive::unreached;
use vstd::string::*;
use vstd::utf8::*;
use crate::arena::{
    arena_view, cell_ok, extends, in_arena, lemma_cut_no_duplicates, lemma_in_arena_concat,
    lemma_in_arena_subrange, lemma_read_extends, lemma_read_subrange, lemma_splice_no_duplicates,
    lemma_written_read, read, same_shape,
};
use crate::chars::RopeChars;
use crate::error::RopeError;
use crate::node::{Inode, Lnode, Node, NodeAction};
use crate::seqs::{cut, overwrite, splice};
use crate::slice::RopeSlice;
use crate::utf8::{encode_char, string_from_utf8};

verus! {

/// A text buffer. Its view is the sequence of its bytes.
#[derive(Debug)]
pub struct Rope {
    root: Node,
    len: usize,
    /// The arena: one buffer for each text ever inserted, never shrunk.
    storage: Vec<Vec<u8>>,
}

impl View for Rope {
    type V = Seq<u8>;

    /// The bytes that the arena holds at the cells of the tree.
    open spec fn view(&self) -> Seq<u8> {
        read(self.arena(), self.tree().cells())
    }
}

impl Rope {
    /// The tree is well formed, the length is that of the tree, every leaf
    /// lies within the arena, and no byte of the arena is named twice.
    pub closed spec fn wf(&self) -> bool {
        &&& self.root.wf()
        &&& self.len == self.root.spec_len()
        &&& in_arena(self.root.cells(), arena_view(&self.storage))
        &&& self.root.cells().no_duplicates()
    }

    /// The arena: the byte buffers that back the text, one for each
    /// insertion, in the order of the insertions.
    pub closed spec fn arena(&self) -> Seq<Seq<u8>> {
        arena_view(&self.storage)
    }

    /// The tree whose leaves name the bytes of the text.
    pub closed spec fn tree(&self) -> Node {
        self.root
    }

    /// The tree of a well-formed buffer is well formed, its leaves lie
    /// within the arena, and no two of them share a byte.
    pub proof fn lemma_wf(&self)
        requires
            self.wf(),
        ensures
            self.tree().wf(),
            in_arena(self.tree().cells(), self.arena()),
            self.tree().cells().no_duplicates(),
            self@.len() == self.tree().spec_len() <= isize::MAX,
    {
    }

    /// The empty buffer: an inner node without children over an empty
    /// arena.
    pub fn new() -> (r: Rope)
        ensures
            r.wf(),
            r@ == Seq::<u8>::empty(),
            r.arena() == Seq::<Seq<u8>>::empty(),
            r.tree() == Node::Inner(Inode { weight: 0, left: None, right: None }),
    {
        let r = Rope { root: Node::empty_inner(), len: 0, storage: Vec::new() };
        assert(r@ =~= Seq::<u8>::empty());
        assert(r.arena() =~= Seq::<Seq<u8>>::empty());
        r
    }

    /// The buffer that holds `text`. A buffer holds no more than
    /// `isize::MAX` bytes, so the text may not be longer.
    pub fn from_string(text: String) -> (r: Rope)
        requires
            encode_utf8(text@).len() <= isize::MAX,
        ensures
            r.wf(),
            r@ == encode_utf8(text@),
    {
        let mut result = Rope::new();
        let _ = result.insert(0, text);
        assert(result@ =~= encode_utf8(text@));
        result
    }

    /// The number of bytes in the buffer.
    pub fn len(&self) -> (n: usize)
        requires
            self.wf(),
        ensures
            n == self@.len(),
    {
        self.len
    }

    /// Puts the text into the buffer so that its first byte comes to stand
    /// at offset `start`. Refused, with the buffer unchanged, where `start`
    /// lies beyond the end. The buffer may not grow beyond `isize::MAX`
    /// bytes.
    pub fn insert(&mut self, start: usize, text: String) -> (res: Result<(), RopeError>)
        requires
            old(self).wf(),
            old(self)@.len() + encode_utf8(text@).len() <= isize::MAX,
        ensures
            final(self).wf(),
            start <= old(self)@.len() ==> res is Ok && final(self)@ == splice(
                old(self)@,
                start as int,
                encode_utf8(text@),
            ),
            start <= old(self)@.len() ==> final(self)@.len() == old(self)@.len() + encode_utf8(text@).len(),
            start > old(self)@.len() ==> res == Err::<(), RopeError>(RopeError::OutOfBounds) && final(self)@
                == old(self)@,
            encode_utf8(text@).len() == 0 ==> final(self)@ == old(self)@,
            final(self).arena() == if res is Ok && encode_utf8(text@).len() > 0 {
                old(self).arena().push(encode_utf8(text@))
            } else {
                old(self).arena()
            },
            final(self).tree() == if res is Ok && encode_utf8(text@).len() > 0 {
                old(self).tree().spec_insert(
                    Node::Leaf(
                        Lnode {
                            buf: old(self).arena().len() as usize,
                            off: 0,
                            len: encode_utf8(text@).len() as usize,
                        },
                    ),
                    start as int,
                )
            } else {
                old(self).tree()
            },
    {
        self.insert_inner(start, text.as_str().as_bytes_vec())
    }

    /// Puts `bytes` into the buffer so that the first of them comes to stand
    /// at offset `start`: they become a new buffer of the arena, and a leaf
    /// over it goes into the tree. Nothing is done for no bytes. Refused,
    /// with the buffer unchanged, where `start` lies beyond the end. The
    /// buffer may not grow beyond `isize::MAX` bytes.
    pub fn insert_inner(&mut self, start: usize, bytes: Vec<u8>) -> (res: Result<(), RopeError>)
        requires
            old(self).wf(),
            old(self)@.len() + bytes@.len() <= isize::MAX,
        ensures
            final(self).wf(),
            start <= old(self)@.len() ==> res is Ok && final(self)@ == splice(old(self)@, start as int, bytes@),
            start <= old(self)@.len() ==> final(self)@.len() == old(self)@.len() + bytes@.len(),
            start > old(self)@.len() ==> res == Err::<(), RopeError>(RopeError::OutOfBounds) && final(self)@
                == old(self)@,
            bytes@.len() == 0 ==> final(self)@ == old(self)@,
            final(self).arena() == if res is Ok && bytes@.len() > 0 {
                old(self).arena().push(bytes@)
            } else {
                old(self).arena()
            },
            final(self).tree() == if res is Ok && bytes@.len() > 0 {
                old(self).tree().spec_insert(
                    Node::Leaf(Lnode { buf: old(self).arena().len() as usize, off: 0, len: bytes@.len() as usize }),
                    start as int,
                )
            } else {
                old(self).tree()
            },
    {
        if start > self.len {
            return Err(RopeError::OutOfBounds);
        }
        let len = bytes.len();
        if len == 0 {
            assert(self@ =~= splice(self@, start as int, bytes@));
            return Ok(());
        }
        let ghost a = arena_view(&self.storage);
        let ghost cells = self.root.cells();
        let ghost added = bytes@;
        let buf = self.storage.len();
        self.storage.push(bytes);
        let ghost b = arena_view(&self.storage);
        let leaf = Box::new(Node::new_leaf(buf, 0, len));
        let ghost fresh = leaf.cells();
        let action = self.root.insert(leaf, start);
        match action {
            NodeAction::ReplaceWith(n, _) => {
                self.root = *n;
            },
            NodeAction::AdjustLength(_) => {},
            _ => {
                unreached::<()>();
            },
        }
        self.len = self.len + len;
        proof {
            let now = self.root.cells();
            assert(b =~= a.push(added));
            assert(extends(a, b));
            lemma_read_extends(a, b, cells);
            assert(b[buf as int] == added);
            assert(read(b, fresh) =~= added);
            assert forall|i: int, j: int| 0 <= i < cells.len() && 0 <= j < fresh.len() implies cells[i]
                != fresh[j] by {
                assert(cell_ok(a, cells[i]));
            }
            lemma_splice_no_duplicates(cells, start as int, fresh);
            assert forall|i: int| 0 <= i < now.len() implies cell_ok(b, #[trigger] now[i]) by {
                if i < start {
                    assert(now[i] == cells[i]);
                } else if i < start + fresh.len() {
                    assert(now[i] == fresh[i - start]);
                } else {
                    assert(now[i] == cells[i - fresh.len()]);
                }
            }
            assert(read(b, now) =~= splice(read(a, cells), start as int, added));
        }
        Ok(())
    }

    /// Puts a copy of `text` in at offset `start`.
    pub fn insert_copy(&mut self, start: usize, text: &str) -> (res: Result<(), RopeError>)
        requires
            old(self).wf(),
            old(self)@.len() + encode_utf8(text@).len() <= isize::MAX,
        ensures
            final(self).wf(),
            start <= old(self)@.len() ==> res is Ok && final(self)@ == splice(
                old(self)@,
                start as int,
                encode_utf8(text@),
            ),
            start > old(self)@.len() ==> res == Err::<(), RopeError>(RopeError::OutOfBounds) && final(self)@
                == old(self)@,
    {
        self.insert(start, text.to_owned())
    }

    /// Puts `text` at the end of the buffer.
    pub fn push(&mut self, text: String)
        requires
            old(self).wf(),
            old(self)@.len() + encode_utf8(text@).len() <= isize::MAX,
        ensures
            final(self).wf(),
            final(self)@ == old(self)@ + encode_utf8(text@),
    {
        let len = self.len;
        let _ = self.insert(len, text);
        assert(self@ =~= old(self)@ + encode_utf8(text@));
    }

    /// Puts a copy of `text` at the end of the buffer.
    pub fn push_copy(&mut self, text: &str)
        requires
            old(self).wf(),
            old(self)@.len() + encode_utf8(text@).len() <= isize::MAX,
        ensures
            final(self).wf(),
            final(self)@ == old(self)@ + encode_utf8(text@),
    {
        self.push(text.to_owned());
    }

    /// Takes the bytes at the offsets `start..end` out of the buffer.
    /// Refused, with the buffer unchanged, unless `start <= end` and `end`
    /// lies within the buffer.
    pub fn remove(&mut self, start: usize, end: usize) -> (res: Result<(), RopeError>)
        requires
            old(self).wf(),
        ensures
            final(self).wf(),
            start <= end <= old(self)@.len() ==> res is Ok && final(self)@ == cut(
                old(self)@,
                start as int,
                end as int,
            ),
            start <= end <= old(self)@.len() ==> final(self)@.len() == old(self)@.len() - (end - start),
            !(start <= end <= old(self)@.len()) ==> res == Err::<(), RopeError>(RopeError::OutOfBounds)
                && final(self)@ == old(self)@,
            start == end ==> final(self)@ == old(self)@,
            final(self).arena() == old(self).arena(),
            final(self).tree() == if start < end <= old(self)@.len() {
                match old(self).tree().spec_remove(start as int, end as int) {
                    Some(n) => n,
                    None => Node::Inner(Inode { weight: 0, left: None, right: None }),
                }
            } else {
                old(self).tree()
            },
    {
        if start > end || end > self.len {
            return Err(RopeError::OutOfBounds);
        }
        if start == end {
            assert(self@ =~= cut(self@, start as int, end as int));
            return Ok(());
        }
        let ghost a = arena_view(&self.storage);
        let ghost cells = self.root.cells();
        let action = self.root.remove(start, end);
        match action {
            NodeAction::RemoveSelf => {
                self.root = Node::empty_inner();
                self.len = 0;
            },
            NodeAction::ReplaceWith(n, adj) => {
                self.root = *n;
                self.len = (self.len as isize + adj) as usize;
            },
            NodeAction::AdjustLength(adj) => {
                self.len = (self.len as isize + adj) as usize;
            },
            NodeAction::NoChange => {},
        }
        proof {
            let now = self.root.cells();
            assert(now =~= cut(cells, start as int, end as int));
            lemma_cut_no_duplicates(cells, start as int, end as int);
            lemma_in_arena_subrange(cells, 0, start as int, a);
            lemma_in_arena_subrange(cells, end as int, cells.len() as int, a);
            lemma_in_arena_concat(
                cells.subrange(0, start as int),
                cells.subrange(end as int, cells.len() as int),
                a,
            );
            assert(read(a, now) =~= cut(read(a, cells), start as int, end as int));
        }
        Ok(())
    }

    /// Writes the bytes of `text` over the bytes of the buffer from offset
    /// `start` on; the length of the buffer stays. Refused, with the buffer
    /// unchanged, where `start` lies beyond the end, and where the text is
    /// longer than what is left of the buffer from `start` on.
    pub fn replace_str(&mut self, start: usize, text: &str) -> (res: Result<(), RopeError>)
        requires
            old(self).wf(),
        ensures
            final(self).wf(),
            final(self)@.len() == old(self)@.len(),
            same_shape(old(self).arena(), final(self).arena()),
            res is Err ==> final(self).arena() == old(self).arena(),
            final(self).tree() == old(self).tree(),
            start > old(self)@.len() ==> res == Err::<(), RopeError>(RopeError::OutOfBounds) && final(self)@
                == old(self)@,
            start <= old(self)@.len() < start + encode_utf8(text@).len() ==> res == Err::<(), RopeError>(
                RopeError::WidthMismatch,
            ) && final(self)@ == old(self)@,
            start + encode_utf8(text@).len() <= old(self)@.len() ==> res is Ok && final(self)@
                == overwrite(old(self)@, start as int, encode_utf8(text@)),
    {
        self.replace_bytes(start, text.as_bytes())
    }

    /// Writes the encoding of `new_char` over the bytes of the buffer from
    /// offset `start` on, under the rules of `replace_str`.
    pub fn replace(&mut self, start: usize, new_char: char) -> (res: Result<(), RopeError>)
        requires
            old(self).wf(),
        ensures
            final(self).wf(),
            final(self)@.len() == old(self)@.len(),
            same_shape(old(self).arena(), final(self).arena()),
            res is Err ==> final(self).arena() == old(self).arena(),
            final(self).tree() == old(self).tree(),
            start > old(self)@.len() ==> res == Err::<(), RopeError>(RopeError::OutOfBounds) && final(self)@
                == old(self)@,
            start <= old(self)@.len() < start + encode_utf8(seq![new_char]).len() ==> res == Err::<
                (),
                RopeError,
            >(RopeError::WidthMismatch) && final(self)@ == old(self)@,
            start + encode_utf8(seq![new_char]).len() <= old(self)@.len() ==> res is Ok && final(self)@
                == overwrite(old(self)@, start as int, encode_utf8(seq![new_char])),
    {
        let bytes = encode_char(new_char);
        self.replace_bytes(start, bytes.as_slice())
    }

    /// Writes `bytes` over the bytes of the buffer from offset `start` on.
    pub fn replace_bytes(&mut self, start: usize, bytes: &[u8]) -> (res: Result<(), RopeError>)
        requires
            old(self).wf(),
        ensures
            final(self).wf(),
            final(self)@.len() == old(self)@.len(),
            same_shape(old(self).arena(), final(self).arena()),
            res is Err ==> final(self).arena() == old(self).arena(),
            final(self).tree() == old(self).tree(),
            start > old(self)@.len() ==> res == Err::<(), RopeError>(RopeError::OutOfBounds) && final(self)@
                == old(self)@,
            start <= old(self)@.len() < start + bytes@.len() ==> res == Err::<(), RopeError>(
                RopeError::WidthMismatch,
            ) && final(self)@ == old(self)@,
            start + bytes@.len() <= old(self)@.len() ==> res is Ok && final(self)@ == overwrite(
                old(self)@,
                start as int,
                bytes@,
            ),
    {
        if start > self.len {
            return Err(RopeError::OutOfBounds);
        }
        if bytes.len() > self.len - start {
            return Err(RopeError::WidthMismatch);
        }
        let ghost a = arena_view(&self.storage);
        let ghost cells = self.root.cells();
        self.root.replace(start, bytes, &mut self.storage);
        proof {
            lemma_written_read(a, arena_view(&self.storage), cells, start as int, bytes@);
        }
        Ok(())
    }

    /// The view of the bytes at the offsets of `range`. Refused unless the
    /// range starts no later than it ends and ends within the buffer.
    pub fn slice(&self, range: Range<usize>) -> (res: Result<RopeSlice<'_>, RopeError>)
        requires
            self.wf(),
        ensures
            range.start <= range.end <= self@.len() ==> res is Ok && res->Ok_0.wf() && res->Ok_0@
                == self@.subrange(range.start as int, range.end as int),
            res is Ok ==> res->Ok_0.arena() == self.arena(),
            range.start < range.end <= self@.len() ==> res is Ok && res->Ok_0.leaves() == self.tree().spec_find(
                range.start as int,
                range.end as int,
            ) && res->Ok_0.skip() == self.tree().spec_skip(range.start as int),
            range.start == range.end <= self@.len() ==> res is Ok && res->Ok_0.leaves().len() == 0,
            !(range.start <= range.end <= self@.len()) ==> res is Err && res->Err_0 == RopeError::OutOfBounds,
    {
        let start = range.start;
        let end = range.end;
        if start > end || end > self.len {
            return Err(RopeError::OutOfBounds);
        }
        let mut result = RopeSlice::empty(&self.storage);
        if start < end {
            self.root.find_slice(start, end, &mut result);
        }
        proof {
            let cells = self.root.cells();
            assert(result.cells() =~= cells.subrange(start as int, end as int));
            lemma_read_subrange(arena_view(&self.storage), cells, start as int, end as int);
        }
        Ok(result)
    }

    /// The view of the whole buffer.
    pub fn full_slice(&self) -> (s: RopeSlice<'_>)
        requires
            self.wf(),
        ensures
            s.wf(),
            s@ == self@,
            s.arena() == self.arena(),
    {
        let mut result = RopeSlice::empty(&self.storage);
        if self.len > 0 {
            self.root.find_slice(0, self.len, &mut result);
        }
        proof {
            let cells = self.root.cells();
            assert(result.cells() =~= cells);
        }
        result
    }

    /// The characters of the buffer with their byte offsets.
    pub fn chars(&self) -> (it: RopeChars<'_>)
        requires
            self.wf(),
        ensures
            it.wf(),
            it.remaining() == self@,
            it.position() == 0,
    {
        self.full_slice().chars()
    }

    /// The bytes of the buffer.
    pub fn to_bytes(&self) -> (bytes: Vec<u8>)
        requires
            self.wf(),
        ensures
            bytes@ == self@,
    {
        let mut out: Vec<u8> = Vec::new();
        self.root.append_to(&self.storage, &mut out);
        assert(out@ =~= self@);
        out
    }

    /// The text of the buffer; refused where its bytes are not UTF-8.
    pub fn to_string(&self) -> (res: Result<String, RopeError>)
        requires
            self.wf(),
        ensures
            valid_utf8(self@) ==> res is Ok && res->Ok_0@ == decode_utf8(self@),
            !valid_utf8(self@) ==> res is Err && res->Err_0 == RopeError::InvalidUtf8,
    {
        match string_from_utf8(self.to_bytes()) {
            Some(s) => Ok(s),
            None => Err(RopeError::InvalidUtf8),
        }
    }
}

impl std::str::FromStr for Rope {
    type Err = ();

    /// The buffer that holds `text`; refused where the text is longer than
    /// a signed length can say.
    fn from_str(text: &str) -> (res: Result<Rope, ()>)
        ensures
            encode_utf8(text@).len() <= isize::MAX ==> res is Ok && res->Ok_0.wf() && res->Ok_0@
                == encode_utf8(text@),
            encode_utf8(text@).len() > isize::MAX ==> res is Err,
    {
        if text.as_bytes().len() > isize::MAX as usize {
            return Err(());
        }
        let mut result = Rope::new();
        let _ = result.insert_copy(0, text);
        assert(result@ =~= encode_utf8(text@));
        Ok(result)
    }
}

} // verus!
