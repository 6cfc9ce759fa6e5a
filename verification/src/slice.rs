//! A read-only view of a byte range of the buffer: the leaves that the range
//! touches, how much of the first to skip, and how many bytes to show.

use vstd::prelude::*;
use vstd::slice::slice_subrange;
use vstd::utf8::{decode_utf8, valid_utf8};
use crate::arena::{arena_view, cell_ok, in_arena, read};
use crate::chars::RopeChars;
use crate::error::RopeError;
use crate::node::{Cell, Lnode};
use crate::seqs::{min_int, min_usize};
use crate::utf8::string_from_utf8;

verus! {

/// The cells of a run of leaves, in order.
pub open spec fn leaf_cells(leaves: Seq<Lnode>) -> Seq<Cell>
    decreases leaves.len(),
{
    if leaves.len() == 0 {
        Seq::empty()
    } else {
        leaf_cells(leaves.drop_last()) + leaves.last().cells()
    }
}

/// A run of leaves starts with the cells of its first leaf.
pub proof fn lemma_leaf_cells_front(leaves: Seq<Lnode>)
    requires
        leaves.len() > 0,
    ensures
        leaf_cells(leaves) == leaves[0].cells() + leaf_cells(leaves.drop_first()),
    decreases leaves.len(),
{
    if leaves.len() == 1 {
        assert(leaves.drop_last() =~= Seq::<Lnode>::empty());
        assert(leaves.drop_first() =~= Seq::<Lnode>::empty());
        assert(leaf_cells(leaves) =~= leaves[0].cells() + leaf_cells(leaves.drop_first()));
    } else {
        lemma_leaf_cells_front(leaves.drop_last());
        assert(leaves.drop_last().drop_first() =~= leaves.drop_first().drop_last());
        assert(leaves.drop_last()[0] == leaves[0]);
        assert(leaves.drop_first().last() == leaves.last());
        assert(leaf_cells(leaves) =~= leaves[0].cells() + leaf_cells(leaves.drop_first()));
    }
}

/// A view of a byte range of a buffer. It borrows the buffer, which
/// therefore cannot change while the view is in use.
#[derive(Debug)]
pub struct RopeSlice<'rope> {
    /// The leaves that the range touches, in document order.
    nodes: Vec<&'rope Lnode>,
    /// The arena that the leaves name bytes of.
    storage: &'rope Vec<Vec<u8>>,
    /// The index of the first leaf that still has bytes to show.
    first: usize,
    /// How many bytes of that leaf to skip.
    start: usize,
    /// How many bytes the view shows in all.
    len: usize,
}

impl<'rope> RopeSlice<'rope> {
    /// The leaves that still have bytes to show, in document order.
    pub closed spec fn leaves(&self) -> Seq<Lnode> {
        Seq::new((self.nodes@.len() - self.first) as nat, |i: int| *self.nodes@[self.first + i])
    }

    /// How many bytes of the first leaf the view skips.
    pub closed spec fn skip(&self) -> int {
        self.start as int
    }

    /// How many bytes the view shows.
    pub closed spec fn spec_len(&self) -> int {
        self.len as int
    }

    /// The arena that the view reads from.
    pub closed spec fn arena(&self) -> Seq<Seq<u8>> {
        arena_view(self.storage)
    }

    /// The arena cells that the view shows, in document order: those of
    /// its leaves, but for the bytes skipped in the first leaf and for what
    /// lies beyond the length.
    pub open spec fn cells(&self) -> Seq<Cell> {
        leaf_cells(self.leaves()).subrange(self.skip(), self.skip() + self.spec_len())
    }

    /// The leaves are well formed and lie within the arena; a view with
    /// leaves shows at least one byte, starts within its first leaf and ends
    /// within its leaves; a view without leaves skips and shows nothing.
    pub closed spec fn wf(&self) -> bool {
        &&& self.first <= self.nodes@.len()
        &&& forall|i: int|
            0 <= i < self.leaves().len() ==> (#[trigger] self.leaves()[i]).wf() && in_arena(
                self.leaves()[i].cells(),
                self.arena(),
            )
        &&& if self.first == self.nodes@.len() {
            self.start == 0 && self.len == 0
        } else {
            &&& self.start < self.leaves()[0].len
            &&& self.len > 0
            &&& self.start + self.len <= leaf_cells(self.leaves()).len()
        }
    }

    /// The view ends where its last leaf ends, so that a leaf pushed behind
    /// it continues the range.
    pub closed spec fn open_ended(&self) -> bool {
        self.start + self.len == leaf_cells(self.leaves()).len()
    }

    /// The bytes that the view shows.
    pub open spec fn view(&self) -> Seq<u8> {
        read(self.arena(), self.cells())
    }

    /// A view shows no more bytes than a length can count.
    pub proof fn lemma_len_bound(&self)
        requires
            self.wf(),
        ensures
            self@.len() <= usize::MAX,
    {
    }

    /// The view of nothing, over the given arena.
    pub fn empty(storage: &'rope Vec<Vec<u8>>) -> (s: Self)
        ensures
            s.wf(),
            s.open_ended(),
            s.arena() == arena_view(storage),
            s.leaves() == Seq::<Lnode>::empty(),
            s.cells() == Seq::<Cell>::empty(),
    {
        let s = RopeSlice { nodes: Vec::new(), storage, first: 0, start: 0, len: 0 };
        assert(s.leaves() =~= Seq::<Lnode>::empty());
        assert(s.cells() =~= Seq::<Cell>::empty());
        s
    }

    /// The number of bytes that the view shows.
    pub fn len(&self) -> (n: usize)
        requires
            self.wf(),
        ensures
            n == self@.len(),
    {
        self.len
    }

    /// Continues the view with the bytes `start..end` of `leaf`, `end` cut
    /// off at the leaf's length. Only the first leaf of a view can be
    /// entered after its start.
    pub fn push_leaf(&mut self, leaf: &'rope Lnode, start: usize, end: usize)
        requires
            old(self).wf(),
            old(self).open_ended(),
            leaf.wf(),
            in_arena(leaf.cells(), old(self).arena()),
            start < leaf.len,
            start < end,
            start > 0 ==> old(self).cells().len() == 0,
            old(self).cells().len() + min_int(end as int, leaf.len as int) - start <= usize::MAX,
        ensures
            final(self).wf(),
            final(self).arena() == old(self).arena(),
            final(self).leaves() == old(self).leaves().push(*leaf),
            final(self).skip() == if old(self).leaves().len() == 0 {
                start as int
            } else {
                old(self).skip()
            },
            final(self).cells() == old(self).cells() + leaf.cells().subrange(
                start as int,
                min_int(end as int, leaf.len as int),
            ),
            end >= leaf.len ==> final(self).open_ended(),
    {
        let ghost live0 = self.leaves();
        let stop = min_usize(end, leaf.len);
        if self.first == self.nodes.len() {
            self.nodes.push(leaf);
            self.start = start;
            self.len = stop - start;
            proof {
                assert(self.leaves() =~= seq![*leaf]);
                assert(self.leaves().drop_last() =~= Seq::<Lnode>::empty());
                assert(leaf_cells(Seq::<Lnode>::empty()) =~= Seq::<Cell>::empty());
                assert(self.leaves().last() == *leaf);
                assert(leaf_cells(self.leaves()) =~= leaf.cells());
                assert(live0 =~= Seq::<Lnode>::empty());
            }
        } else {
            self.nodes.push(leaf);
            self.len = self.len + stop;
            proof {
                assert(self.leaves() =~= live0.push(*leaf));
                assert(self.leaves().drop_last() =~= live0);
                assert(self.leaves()[0] == live0[0]);
                assert(self.cells() =~= leaf_cells(live0).subrange(
                    self.start as int,
                    leaf_cells(live0).len() as int,
                ) + leaf.cells().subrange(0, stop as int));
            }
        }
    }

    /// Takes the first byte off the view and returns it; `None` where the
    /// view shows nothing.
    pub fn next(&mut self) -> (res: Option<u8>)
        requires
            old(self).wf(),
        ensures
            final(self).wf(),
            final(self).arena() == old(self).arena(),
            old(self)@.len() == 0 ==> res is None && final(self).cells() == old(self).cells(),
            old(self)@.len() > 0 ==> {
                &&& res == Some(old(self)@[0])
                &&& final(self).cells() == old(self).cells().skip(1)
                &&& final(self)@ == old(self)@.skip(1)
            },
    {
        if self.len == 0 {
            return None;
        }
        let ghost live0 = self.leaves();
        let ghost cells0 = self.cells();
        let count = self.nodes.len();
        let leaf = self.nodes[self.first];
        proof {
            lemma_leaf_cells_front(live0);
            assert(*leaf == live0[0]);
            assert(cells0[0] == leaf.cells()[self.start as int]);
            assert(cell_ok(self.arena(), leaf.cells()[self.start as int]));
        }
        let byte = self.storage[leaf.buf][leaf.off + self.start];
        self.start = self.start + 1;
        self.len = self.len - 1;
        if self.len == 0 {
            self.first = count;
            self.start = 0;
            proof {
                assert(self.leaves() =~= Seq::<Lnode>::empty());
                assert(self.cells() =~= cells0.subrange(1, cells0.len() as int));
            }
        } else if self.start == leaf.len {
            self.first = self.first + 1;
            self.start = 0;
            proof {
                assert(self.leaves() =~= live0.drop_first());
                assert(self.cells() =~= cells0.subrange(1, cells0.len() as int));
                if self.leaves().len() > 0 {
                    lemma_leaf_cells_front(self.leaves());
                }
            }
        } else {
            proof {
                assert(self.leaves() =~= live0);
                assert(self.cells() =~= cells0.subrange(1, cells0.len() as int));
            }
        }
        proof {
            assert(self@ =~= old(self)@.skip(1));
        }
        Some(byte)
    }

    /// Empties the view.
    pub fn clear(&mut self)
        requires
            old(self).wf(),
        ensures
            final(self).wf(),
            final(self).arena() == old(self).arena(),
            final(self).cells() == Seq::<Cell>::empty(),
    {
        self.first = self.nodes.len();
        self.start = 0;
        self.len = 0;
        proof {
            assert(self.leaves() =~= Seq::<Lnode>::empty());
            assert(self.cells() =~= Seq::<Cell>::empty());
        }
    }

    /// The text that the view shows; refused where its bytes are not UTF-8.
    pub fn to_string(&self) -> (res: Result<String, RopeError>)
        requires
            self.wf(),
        ensures
            valid_utf8(self@) ==> res is Ok && res->Ok_0@ == decode_utf8(self@),
            !valid_utf8(self@) ==> res is Err && res->Err_0 == RopeError::InvalidUtf8,
    {
        match string_from_utf8(self.to_bytes()) {
            Some(s) => Ok(s),
            None => Err(RopeError::InvalidUtf8),
        }
    }

    /// The characters of the view with their byte offsets in it.
    pub fn chars(self) -> (it: RopeChars<'rope>)
        requires
            self.wf(),
        ensures
            it.wf(),
            it.remaining() == self@,
            it.position() == 0,
    {
        RopeChars::new(self)
    }

    /// The bytes that the view shows, copied leaf by leaf.
    pub fn to_bytes(&self) -> (bytes: Vec<u8>)
        requires
            self.wf(),
        ensures
            bytes@ == self@,
    {
        let mut out: Vec<u8> = Vec::new();
        let count = self.nodes.len();
        let mut i = self.first;
        let mut skip = self.start;
        let mut left = self.len;
        let ghost cells = self.cells();
        let ghost arena = self.arena();
        proof {
            assert(self.leaves().subrange(0, self.leaves().len() as int) =~= self.leaves());
        }
        while left > 0
            invariant
                self.wf(),
                cells == self.cells(),
                arena == self.arena(),
                self.first <= i <= self.nodes@.len(),
                count == self.nodes@.len(),
                left <= self.len,
                out@ == read(arena, cells.subrange(0, self.len - left)),
                left > 0 ==> i < self.nodes@.len() && skip < self.leaves()[i - self.first].len,
                left > 0 ==> skip + left <= leaf_cells(
                    self.leaves().subrange(i - self.first, self.leaves().len() as int),
                ).len(),
                left > 0 ==> cells.subrange(self.len - left, self.len as int) == leaf_cells(
                    self.leaves().subrange(i - self.first, self.leaves().len() as int),
                ).subrange(skip as int, skip + left),
            decreases left,
        {
            let ghost rest = self.leaves().subrange(i - self.first, self.leaves().len() as int);
            let leaf = self.nodes[i];
            proof {
                lemma_leaf_cells_front(rest);
                assert(rest[0] == self.leaves()[i - self.first]);
                assert(*leaf == rest[0]);
                assert(cell_ok(arena, leaf.cells()[0]));
                assert(cell_ok(arena, leaf.cells()[leaf.len - 1]));
            }
            let take = min_usize(leaf.len - skip, left);
            let from = leaf.off + skip;
            let ghost done = out@;
            out.extend_from_slice(slice_subrange(self.storage[leaf.buf].as_slice(), from, from + take));
            proof {
                let shown = self.len - left;
                let piece = leaf.cells().subrange(skip as int, skip + take);
                assert(cells.subrange(shown, shown + take) =~= piece) by {
                    assert(cells.subrange(shown, shown + take) =~= cells.subrange(
                        shown,
                        self.len as int,
                    ).subrange(0, take as int));
                }
                assert(cells.subrange(0, shown + take) =~= cells.subrange(0, shown) + piece);
                assert(out@ =~= done + read(arena, piece));
                assert(out@ =~= read(arena, cells.subrange(0, shown + take)));
                if left - take > 0 {
                    let next = self.leaves().subrange(i + 1 - self.first, self.leaves().len() as int);
                    assert(next =~= rest.drop_first());
                    assert(cells.subrange(shown + take, self.len as int) =~= leaf_cells(next).subrange(
                        0,
                        left - take,
                    )) by {
                        assert(cells.subrange(shown + take, self.len as int) =~= cells.subrange(
                            shown,
                            self.len as int,
                        ).subrange(take as int, left as int));
                    }
                    if next.len() > 0 {
                        lemma_leaf_cells_front(next);
                        assert(next[0] == self.leaves()[i + 1 - self.first]);
                    }
                }
            }
            left = left - take;
            i = i + 1;
            skip = 0;
        }
        proof {
            assert(cells.subrange(0, self.len as int) =~= cells);
        }
        out
    }
}

} // verus!
