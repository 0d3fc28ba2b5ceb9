//! Facts about sequences of rows and their concatenation.

use vstd::prelude::*;

verus! {

/// Consecutive chunks of `s`, each `len` long: chunk `i` starts at `i * len`.
pub open spec fn chunks<A>(s: Seq<A>, len: int, count: int) -> Seq<Seq<A>> {
    Seq::new(count as nat, |i: int| s.subrange(i * len, (i + 1) * len))
}

/// Concatenating one more row appends that row.
pub proof fn lemma_take_one_more<A>(rows: Seq<Seq<A>>, n: int)
    requires
        0 <= n < rows.len(),
    ensures
        rows.take(n + 1).flatten() == rows.take(n).flatten() + rows[n],
{
    assert(rows.take(n + 1) == rows.take(n).push(rows[n]));
    rows.take(n).lemma_flatten_push(rows[n]);
}

/// Rows of one length concatenate to that length times their number.
pub proof fn lemma_flatten_uniform_len<A>(rows: Seq<Seq<A>>, len: nat)
    requires
        forall|i: int| 0 <= i < rows.len() ==> (#[trigger] rows[i]).len() == len,
    ensures
        rows.flatten().len() == rows.len() * len,
    decreases rows.len(),
{
    if rows.len() == 0 {
        assert(rows.flatten() == Seq::<A>::empty());
        assert(rows.len() * len == 0) by (nonlinear_arith)
            requires
                rows.len() == 0,
        ;
    } else {
        let init = rows.drop_last();
        lemma_flatten_uniform_len(init, len);
        assert(rows == init.push(rows.last()));
        init.lemma_flatten_push(rows.last());
        assert(init.len() * len + len == rows.len() * len) by (nonlinear_arith)
            requires
                init.len() + 1 == rows.len(),
        ;
    }
}

/// In the concatenation of rows of one length, row `y` stands at `y * len`.
pub proof fn lemma_row_of_flatten<A>(rows: Seq<Seq<A>>, len: nat, y: int)
    requires
        forall|i: int| 0 <= i < rows.len() ==> (#[trigger] rows[i]).len() == len,
        0 <= y < rows.len(),
    ensures
        rows.flatten().subrange(y * len, (y + 1) * len) == rows[y],
    decreases rows.len(),
{
    let init = rows.drop_last();
    assert(rows == init.push(rows.last()));
    init.lemma_flatten_push(rows.last());
    lemma_flatten_uniform_len(init, len);
    assert(y * len + len == (y + 1) * len) by (nonlinear_arith);
    if y == rows.len() - 1 {
        assert(rows.flatten().subrange(y * len, (y + 1) * len) == rows.last());
    } else {
        lemma_row_of_flatten(init, len, y);
        assert((y + 1) * len <= init.len() * len) by (nonlinear_arith)
            requires
                y + 1 <= init.len(),
        ;
        assert(rows.flatten().subrange(y * len, (y + 1) * len) == init.flatten().subrange(
            y * len,
            (y + 1) * len,
        ));
    }
}

/// Cutting a sequence into consecutive chunks and concatenating them gives
/// back what was cut.
pub proof fn lemma_flatten_chunks<A>(s: Seq<A>, len: int, count: int)
    requires
        0 <= len,
        0 <= count,
        count * len <= s.len(),
    ensures
        chunks(s, len, count).flatten() == s.take(count * len),
    decreases count,
{
    let rows = chunks(s, len, count);
    if count == 0 {
        assert(rows.flatten() == Seq::<A>::empty());
        assert(count * len == 0) by (nonlinear_arith)
            requires
                count == 0,
        ;
    } else {
        assert((count - 1) * len + len == count * len && (count - 1) * len >= 0)
            by (nonlinear_arith)
            requires
                count >= 1,
                len >= 0,
        ;
        lemma_flatten_chunks(s, len, count - 1);
        assert(rows.drop_last() == chunks(s, len, count - 1));
        assert(rows == rows.drop_last().push(rows.last()));
        rows.drop_last().lemma_flatten_push(rows.last());
        assert(s.take(count * len) == s.take((count - 1) * len) + s.subrange(
            (count - 1) * len,
            count * len,
        ));
    }
}

} // verus!
