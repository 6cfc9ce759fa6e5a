//! The arena as the contracts see it: a sequence of byte buffers, read and
//! written by cell.

use vstd::prelude::*;
use crate::node::Cell;
use crate::seqs::{cut, overwrite, splice};

verus! {

/// The buffers of the arena, each as the sequence of its bytes.
pub open spec fn arena_view(storage: &Vec<Vec<u8>>) -> Seq<Seq<u8>> {
    Seq::new(storage@.len(), |i: int| storage@[i]@)
}

/// The cell names a byte that the arena holds.
pub open spec fn cell_ok(arena: Seq<Seq<u8>>, c: Cell) -> bool {
    0 <= c.0 < arena.len() && 0 <= c.1 < arena[c.0].len()
}

/// Every cell of the sequence names a byte that the arena holds.
pub open spec fn in_arena(cells: Seq<Cell>, arena: Seq<Seq<u8>>) -> bool {
    forall|i: int| 0 <= i < cells.len() ==> cell_ok(arena, #[trigger] cells[i])
}

/// The bytes that the arena holds at the given cells, in their order.
pub open spec fn read(arena: Seq<Seq<u8>>, cells: Seq<Cell>) -> Seq<u8> {
    Seq::new(cells.len(), |i: int| arena[cells[i].0][cells[i].1])
}

/// The two arenas have the same buffers by number and length.
pub open spec fn same_shape(a: Seq<Seq<u8>>, b: Seq<Seq<u8>>) -> bool {
    &&& a.len() == b.len()
    &&& forall|i: int| 0 <= i < a.len() ==> (#[trigger] a[i]).len() == b[i].len()
}

/// Arena `b` is arena `a` after `bytes` were written to `cells`, byte by
/// byte: the cells hold the bytes, and every other cell holds what it held.
pub open spec fn written(a: Seq<Seq<u8>>, b: Seq<Seq<u8>>, cells: Seq<Cell>, bytes: Seq<u8>) -> bool {
    &&& same_shape(a, b)
    &&& cells.len() == bytes.len()
    &&& forall|k: int| 0 <= k < cells.len() ==> b[(#[trigger] cells[k]).0][cells[k].1] == bytes[k]
    &&& forall|c: Cell| cell_ok(a, c) && !cells.contains(c) ==> b[c.0][c.1] == a[c.0][c.1]
}

/// Arena `b` is arena `a` with further buffers behind it.
pub open spec fn extends(a: Seq<Seq<u8>>, b: Seq<Seq<u8>>) -> bool {
    &&& a.len() <= b.len()
    &&& forall|i: int| 0 <= i < a.len() ==> #[trigger] a[i] == b[i]
}

pub proof fn lemma_in_arena_concat(l: Seq<Cell>, r: Seq<Cell>, arena: Seq<Seq<u8>>)
    ensures
        in_arena(l + r, arena) <==> in_arena(l, arena) && in_arena(r, arena),
{
    if in_arena(l + r, arena) {
        assert forall|i: int| 0 <= i < l.len() implies cell_ok(arena, #[trigger] l[i]) by {
            assert((l + r)[i] == l[i]);
        }
        assert forall|i: int| 0 <= i < r.len() implies cell_ok(arena, #[trigger] r[i]) by {
            assert((l + r)[l.len() + i] == r[i]);
        }
    }
}

pub proof fn lemma_in_arena_subrange(cells: Seq<Cell>, from: int, to: int, arena: Seq<Seq<u8>>)
    requires
        in_arena(cells, arena),
        0 <= from <= to <= cells.len(),
    ensures
        in_arena(cells.subrange(from, to), arena),
{
    assert forall|i: int| 0 <= i < to - from implies cell_ok(
        arena,
        #[trigger] cells.subrange(from, to)[i],
    ) by {
        assert(cells.subrange(from, to)[i] == cells[from + i]);
    }
}

/// Reading goes through `+` and through `subrange`.
pub proof fn lemma_read_concat(arena: Seq<Seq<u8>>, l: Seq<Cell>, r: Seq<Cell>)
    ensures
        read(arena, l + r) == read(arena, l) + read(arena, r),
{
    assert(read(arena, l + r) =~= read(arena, l) + read(arena, r));
}

pub proof fn lemma_read_subrange(arena: Seq<Seq<u8>>, cells: Seq<Cell>, from: int, to: int)
    requires
        0 <= from <= to <= cells.len(),
    ensures
        read(arena, cells.subrange(from, to)) == read(arena, cells).subrange(from, to),
{
    assert(read(arena, cells.subrange(from, to)) =~= read(arena, cells).subrange(from, to));
}

/// Cells of an arena read the same in an arena that extends it.
pub proof fn lemma_read_extends(a: Seq<Seq<u8>>, b: Seq<Seq<u8>>, cells: Seq<Cell>)
    requires
        extends(a, b),
        in_arena(cells, a),
    ensures
        in_arena(cells, b),
        read(b, cells) == read(a, cells),
{
    assert forall|i: int| 0 <= i < cells.len() implies cell_ok(b, #[trigger] cells[i]) && b[cells[i].0][cells[i].1]
        == a[cells[i].0][cells[i].1] by {
        assert(cell_ok(a, cells[i]));
        assert(a[cells[i].0] == b[cells[i].0]);
    }
    assert(read(b, cells) =~= read(a, cells));
}

/// Splicing fresh cells into a sequence without repeats leaves it so.
pub proof fn lemma_splice_no_duplicates(s: Seq<Cell>, at: int, t: Seq<Cell>)
    requires
        s.no_duplicates(),
        t.no_duplicates(),
        0 <= at <= s.len(),
        forall|i: int, j: int| 0 <= i < s.len() && 0 <= j < t.len() ==> s[i] != t[j],
    ensures
        splice(s, at, t).no_duplicates(),
{
    let u = splice(s, at, t);
    assert forall|i: int, j: int| 0 <= i < u.len() && 0 <= j < u.len() && i != j implies u[i] != u[j] by {
        let oi = if i < at {
            i
        } else {
            i - t.len()
        };
        let oj = if j < at {
            j
        } else {
            j - t.len()
        };
        if at <= i < at + t.len() {
            assert(u[i] == t[i - at]);
        } else {
            assert(u[i] == s[oi]);
        }
        if at <= j < at + t.len() {
            assert(u[j] == t[j - at]);
        } else {
            assert(u[j] == s[oj]);
        }
    }
}

/// Cutting a range out of a sequence without repeats leaves it so.
pub proof fn lemma_cut_no_duplicates(s: Seq<Cell>, from: int, to: int)
    requires
        s.no_duplicates(),
        0 <= from <= to <= s.len(),
    ensures
        cut(s, from, to).no_duplicates(),
{
    let u = cut(s, from, to);
    assert forall|i: int, j: int| 0 <= i < u.len() && 0 <= j < u.len() && i != j implies u[i] != u[j] by {
        let oi = if i < from {
            i
        } else {
            i + (to - from)
        };
        let oj = if j < from {
            j
        } else {
            j + (to - from)
        };
        assert(u[i] == s[oi]);
        assert(u[j] == s[oj]);
    }
}

/// Writing to a stretch of cells that do not repeat overwrites that stretch
/// of what the cells read, and nothing else of it.
pub proof fn lemma_written_read(
    a: Seq<Seq<u8>>,
    b: Seq<Seq<u8>>,
    cells: Seq<Cell>,
    at: int,
    bytes: Seq<u8>,
)
    requires
        cells.no_duplicates(),
        in_arena(cells, a),
        0 <= at,
        at + bytes.len() <= cells.len(),
        written(a, b, cells.subrange(at, at + bytes.len()), bytes),
    ensures
        in_arena(cells, b),
        read(b, cells) == overwrite(read(a, cells), at, bytes),
{
    let w = cells.subrange(at, at + bytes.len());
    assert forall|i: int| 0 <= i < cells.len() implies cell_ok(b, #[trigger] cells[i]) by {
        assert(cell_ok(a, cells[i]));
    }
    assert forall|i: int| 0 <= i < cells.len() implies read(b, cells)[i] == overwrite(
        read(a, cells),
        at,
        bytes,
    )[i] by {
        if at <= i < at + bytes.len() {
            assert(w[i - at] == cells[i]);
        } else {
            assert(cell_ok(a, cells[i]));
            if w.contains(cells[i]) {
                let k = choose|k: int| 0 <= k < w.len() && w[k] == cells[i];
                assert(cells[at + k] == cells[i]);
            }
        }
    }
    assert(read(b, cells) =~= overwrite(read(a, cells), at, bytes));
}

/// Nothing written leaves the arena as it was.
pub proof fn lemma_written_nothing(a: Seq<Seq<u8>>)
    ensures
        written(a, a, Seq::empty(), Seq::empty()),
{
}

/// Two writes in a row, to stretches of cells that share no cell, are one
/// write to the two stretches joined.
pub proof fn lemma_written_compose(
    a: Seq<Seq<u8>>,
    b: Seq<Seq<u8>>,
    c: Seq<Seq<u8>>,
    c1: Seq<Cell>,
    t1: Seq<u8>,
    c2: Seq<Cell>,
    t2: Seq<u8>,
)
    requires
        written(a, b, c1, t1),
        written(b, c, c2, t2),
        in_arena(c1, a),
        forall|i: int, j: int| 0 <= i < c1.len() && 0 <= j < c2.len() ==> c1[i] != c2[j],
    ensures
        written(a, c, c1 + c2, t1 + t2),
{
    let cs = c1 + c2;
    let ts = t1 + t2;
    assert forall|k: int| 0 <= k < cs.len() implies c[(#[trigger] cs[k]).0][cs[k].1] == ts[k] by {
        if k < c1.len() {
            assert(cs[k] == c1[k]);
            assert(cell_ok(a, c1[k]));
            assert(cell_ok(b, c1[k]));
            assert(!c2.contains(c1[k]));
        } else {
            assert(cs[k] == c2[k - c1.len()]);
        }
    }
    assert forall|x: Cell| cell_ok(a, x) && !cs.contains(x) implies c[x.0][x.1] == a[x.0][x.1] by {
        assert(cell_ok(b, x));
        if c1.contains(x) {
            let k = choose|k: int| 0 <= k < c1.len() && c1[k] == x;
            assert(cs[k] == x);
        }
        if c2.contains(x) {
            let k = choose|k: int| 0 <= k < c2.len() && c2[k] == x;
            assert(cs[c1.len() + k] == x);
        }
    }
}

} // verus!
