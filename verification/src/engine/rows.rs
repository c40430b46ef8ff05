//! Buffers of equal rows, laid out one after the other.

use vstd::prelude::*;

verus! {

/// Row `i` of a buffer of rows of `width`.
pub open spec fn chunk<T>(buf: Seq<T>, i: int, width: int) -> Seq<T> {
    buf.subrange(i * width, i * width + width)
}

/// The buffer with row `i` replaced.
pub open spec fn with_chunk<T>(buf: Seq<T>, i: int, width: int, row: Seq<T>) -> Seq<T> {
    buf.subrange(0, i * width) + row + buf.subrange(i * width + width, buf.len() as int)
}

/// A row below the count lies inside the buffer.
pub proof fn lemma_row_inside(i: int, count: int, width: int)
    by (nonlinear_arith)
    requires
        0 <= i < count,
        0 <= width,
    ensures
        0 <= i * width,
        i * width + width <= count * width,
{
}

/// An earlier row ends before a later one starts.
pub proof fn lemma_rows_apart(i: int, j: int, width: int)
    by (nonlinear_arith)
    requires
        0 <= i < j,
        0 <= width,
    ensures
        i * width + width <= j * width,
{
}

/// Replacing a row changes that row and no other.
pub proof fn lemma_with_chunk<T>(buf: Seq<T>, count: int, width: int, i: int, row: Seq<T>)
    requires
        buf.len() == count * width,
        0 <= i < count,
        0 <= width,
        row.len() == width,
    ensures
        with_chunk(buf, i, width, row).len() == buf.len(),
        chunk(with_chunk(buf, i, width, row), i, width) == row,
        forall|j: int|
            0 <= j < count && j != i ==> #[trigger] chunk(with_chunk(buf, i, width, row), j, width) == chunk(
                buf,
                j,
                width,
            ),
{
    lemma_row_inside(i, count, width);
    let new = with_chunk(buf, i, width, row);
    assert(new.len() == buf.len());
    assert(chunk(new, i, width) =~= row);
    assert forall|j: int| 0 <= j < count && j != i implies #[trigger] chunk(new, j, width) == chunk(
        buf,
        j,
        width,
    ) by {
        lemma_row_inside(j, count, width);
        if j < i {
            lemma_rows_apart(j, i, width);
        } else {
            lemma_rows_apart(i, j, width);
        }
        assert(chunk(new, j, width) =~= chunk(buf, j, width));
    }
}

/// Row `i`, to read.
pub(crate) fn row<T>(buf: &[T], i: usize, width: usize, Ghost(count): Ghost<int>) -> (r: &[T])
    requires
        buf@.len() == count * width,
        i < count,
    ensures
        r@ == chunk(buf@, i as int, width as int),
        r@.len() == width,
{
    proof {
        lemma_row_inside(i as int, count, width as int);
        assert(buf.len() <= usize::MAX);
    }
    let from: usize = i * width;
    vstd::slice::slice_subrange(buf, from, from + width)
}

/// Row `i`, to change in place.
pub(crate) fn row_mut<T>(buf: &mut Vec<T>, i: usize, width: usize, Ghost(count): Ghost<int>) -> (r: &mut [T])
    requires
        old(buf)@.len() == count * width,
        i < count,
    ensures
        r@ == chunk(old(buf)@, i as int, width as int),
        r@.len() == width,
        final(buf)@ == with_chunk(old(buf)@, i as int, width as int, final(r)@),
{
    proof {
        lemma_row_inside(i as int, count, width as int);
        assert(buf.len() <= usize::MAX);
    }
    let from: usize = i * width;
    let ghost before = buf@;
    let (head, rest) = buf.as_mut_slice().split_at_mut(from);
    let (mine, tail) = rest.split_at_mut(width);
    proof {
        assert(head@ =~= before.subrange(0, from as int));
        assert(mine@ =~= chunk(before, i as int, width as int));
        assert(tail@ =~= before.subrange(from + width, before.len() as int));
        assert forall|m: Seq<T>| #![auto] head@ + (m + tail@) == with_chunk(before, i as int, width as int, m) by {
            assert(head@ + (m + tail@) =~= with_chunk(before, i as int, width as int, m));
        }
    }
    mine
}

} // verus!
