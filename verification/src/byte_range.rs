//! Byte ranges of a file split into chunks, and their `Range` header text.

use vstd::prelude::*;
use vstd::string::StringExecFns;
use crate::decimal::{decimal, lemma_parse_decimal, parse_u64_spec, push_decimal};

verus! {

/// The inclusive byte ranges `(first, last)` that cover `start..=end` in
/// order, each `size` bytes long except the final one, which ends at `end`.
/// Empty when `start > end`.
pub open spec fn chunk_ranges(start: int, end: int, size: int) -> Seq<(u64, u64)>
    decreases end - start + 1,
{
    if start > end || size <= 0 {
        Seq::empty()
    } else {
        let stop = if size < end - start + 1 {
            start + size
        } else {
            end + 1
        };
        seq![(start as u64, (stop - 1) as u64)] + chunk_ranges(stop, end, size)
    }
}

/// Where the `i`-th chunk of `start..=end` ends.
pub open spec fn chunk_last(start: int, end: int, size: int, i: int) -> int {
    if start + (i + 1) * size - 1 < end {
        start + (i + 1) * size - 1
    } else {
        end
    }
}

/// The `Range` header value `bytes=first-last`.
pub open spec fn range_header(first: u64, last: u64) -> Seq<char> {
    seq!['b', 'y', 't', 'e', 's', '='] + decimal(first as nat) + seq!['-'] + decimal(last as nat)
}

/// One step of `chunk_ranges`: the first range, then the ranges after it.
pub proof fn lemma_chunk_ranges_unfold(start: int, end: int, size: int)
    requires
        start <= end,
        size > 0,
    ensures
        chunk_ranges(start, end, size).len() > 0,
        chunk_ranges(start, end, size)[0] == (start as u64, chunk_last(start, end, size, 0) as u64),
        chunk_ranges(start, end, size).drop_first() == chunk_ranges(
            chunk_last(start, end, size, 0) + 1,
            end,
            size,
        ),
{
    let r = chunk_ranges(start, end, size);
    let stop = if size < end - start + 1 {
        start + size
    } else {
        end + 1
    };
    assert(stop - 1 == chunk_last(start, end, size, 0));
    assert(r.drop_first() =~= chunk_ranges(stop, end, size));
}

/// The ranges of `start..=end` in closed form: the `i`-th one starts at
/// `start + i * size` and ends `size - 1` bytes later, or at `end`; there are
/// just enough of them to reach `end`.
pub proof fn lemma_chunk_ranges_closed_form(start: int, end: int, size: int)
    requires
        0 <= start,
        end <= u64::MAX,
        size > 0,
    ensures
        ({
            let r = chunk_ranges(start, end, size);
            &&& start > end ==> r.len() == 0
            &&& start <= end ==> r.len() > 0 && (r.len() - 1) * size <= end - start
                && end - start < r.len() * size
            &&& forall|i: int|
                0 <= i < r.len() ==> #[trigger] r[i] == (
                    (start + i * size) as u64,
                    chunk_last(start, end, size, i) as u64,
                ) && start + i * size <= chunk_last(start, end, size, i) <= end
        }),
    decreases end - start + 1,
{
    let r = chunk_ranges(start, end, size);
    if start > end {
    } else {
        let stop = chunk_last(start, end, size, 0) + 1;
        lemma_chunk_ranges_unfold(start, end, size);
        lemma_chunk_ranges_closed_form(stop, end, size);
        let rest = chunk_ranges(stop, end, size);
        assert(r =~= seq![r[0]] + rest);
        if stop <= end {
            assert(stop == start + size);
            assert((rest.len() - 1) * size <= end - stop);
            assert(end - stop < rest.len() * size);
            assert(r.len() == rest.len() + 1);
            assert((r.len() - 1) * size == rest.len() * size) by (nonlinear_arith)
                requires
                    r.len() == rest.len() + 1,
            ;
            assert(r.len() * size == rest.len() * size + size) by (nonlinear_arith)
                requires
                    r.len() == rest.len() + 1,
            ;
            assert((rest.len() - 1) * size + size == rest.len() * size) by (nonlinear_arith);
        } else {
            assert(rest.len() == 0);
            assert(r.len() == 1);
            assert(end - start < size);
        }
        assert forall|i: int| 0 <= i < r.len() implies #[trigger] r[i] == (
            (start + i * size) as u64,
            chunk_last(start, end, size, i) as u64,
        ) && start + i * size <= chunk_last(start, end, size, i) <= end by {
            if i == 0 {
            } else {
                assert(r[i] == rest[i - 1]);
                assert(stop == start + size);
                assert(stop + (i - 1) * size == start + i * size) by (nonlinear_arith)
                    requires
                        stop == start + size,
                ;
                assert(stop + (i - 1 + 1) * size == start + (i + 1) * size) by (nonlinear_arith)
                    requires
                        stop == start + size,
                ;
            }
        }
    }
}

/// The ranges of `start..=end` cover it exactly, in order and without gaps or
/// overlaps: the first starts at `start`, the last ends at `end`, each starts
/// right after the one before, and all but the last are `size` bytes long
/// while the last is at most `size` bytes long.
pub proof fn lemma_chunk_ranges_cover(start: int, end: int, size: int)
    requires
        0 <= start <= end,
        end <= u64::MAX,
        size > 0,
    ensures
        ({
            let r = chunk_ranges(start, end, size);
            &&& r.len() > 0
            &&& r[0].0 == start
            &&& r.last().1 == end
            &&& forall|i: int|
                0 <= i < r.len() ==> #[trigger] r[i].0 <= r[i].1 && r[i].1 - r[i].0 + 1 <= size
            &&& forall|i: int|
                0 <= i < r.len() - 1 ==> #[trigger] r[i].1 - r[i].0 + 1 == size && r[i + 1].0
                    == r[i].1 + 1
        }),
{
    let r = chunk_ranges(start, end, size);
    lemma_chunk_ranges_closed_form(start, end, size);
    assert(r[0] == ((start + 0 * size) as u64, chunk_last(start, end, size, 0) as u64));
    let n = r.len() - 1;
    assert(r[n] == ((start + n * size) as u64, chunk_last(start, end, size, n) as u64));
    assert(start + (n + 1) * size - 1 >= end) by (nonlinear_arith)
        requires
            end - start < r.len() * size,
            n == r.len() - 1,
    ;
    assert forall|i: int| 0 <= i < r.len() implies #[trigger] r[i].0 <= r[i].1 && r[i].1 - r[i].0
        + 1 <= size by {
        assert(start + (i + 1) * size == start + i * size + size) by (nonlinear_arith);
    }
    assert forall|i: int| 0 <= i < r.len() - 1 implies #[trigger] r[i].1 - r[i].0 + 1 == size
        && r[i + 1].0 == r[i].1 + 1 by {
        assert(r[i + 1] == ((start + (i + 1) * size) as u64, chunk_last(start, end, size, i + 1) as u64));
        assert(start + (i + 1) * size == start + i * size + size) by (nonlinear_arith);
        assert((i + 1) * size <= n * size) by (nonlinear_arith)
            requires
                i + 1 <= n,
                size > 0,
        ;
        assert(n * size <= end - start);
    }
}

/// The `Range` header text reads back as both offsets: it is `bytes=`, then
/// text that parses as exactly `first`, then `-`, then text that parses as
/// exactly `last`.
pub proof fn lemma_range_header_reads_back(first: u64, last: u64)
    ensures
        range_header(first, last).subrange(0, 6) == seq!['b', 'y', 't', 'e', 's', '='],
        exists|k: int|
            6 <= k < range_header(first, last).len() && #[trigger] range_header(first, last)[k]
                == '-' && parse_u64_spec(range_header(first, last).subrange(6, k)) == Some(first)
                && parse_u64_spec(
                range_header(first, last).subrange(k + 1, range_header(first, last).len() as int),
            ) == Some(last),
{
    let h = range_header(first, last);
    let a = decimal(first as nat);
    let b = decimal(last as nat);
    lemma_parse_decimal(first);
    lemma_parse_decimal(last);
    let k: int = 6 + a.len() as int;
    assert(h.subrange(0, 6) =~= seq!['b', 'y', 't', 'e', 's', '=']);
    assert(h.subrange(6, k) =~= a);
    assert(h.subrange(k + 1, h.len() as int) =~= b);
    assert(h[k] == '-');
}

/// The `Range` header value that asks for the bytes `first..=last`.
pub fn format_range(first: u64, last: u64) -> (s: String)
    ensures
        s@ == range_header(first, last),
{
    proof {
        reveal_strlit("bytes=");
        reveal_strlit("-");
    }
    let mut s = String::from_str("bytes=");
    push_decimal(&mut s, first);
    s.append("-");
    push_decimal(&mut s, last);
    assert(s@ =~= range_header(first, last));
    s
}

} // verus!
