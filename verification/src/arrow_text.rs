//! Text in Arrow buffers: values between offsets, and the bytes as a whole.
use vstd::prelude::*;
use vstd::utf8::{
    is_char_boundary, is_char_boundary_iff_not_is_continuation_byte, length_of_first_scalar,
    pop_first_scalar, valid_first_scalar, valid_utf8, valid_utf8_concat, valid_utf8_split,
};

use crate::arrow_buffers::text_fits;

verus! {

/// Where text ends and text goes on, there is a boundary.
proof fn end_is_boundary(a: Seq<u8>, b: Seq<u8>)
    requires
        valid_utf8(a),
        valid_utf8(a + b),
    ensures
        is_char_boundary(a + b, a.len() as int),
    decreases a.len(),
{
    if a.len() > 0 {
        let n = length_of_first_scalar(a);
        assert(valid_first_scalar(a));
        assert(0 < n <= a.len());
        let rest = pop_first_scalar(a);
        assert(length_of_first_scalar(a + b) == n);
        assert(pop_first_scalar(a + b) =~= rest + b);
        end_is_boundary(rest, b);
    }
}

/// What lies between two boundaries is text.
proof fn text_between_boundaries(bytes: Seq<u8>, i: int, j: int)
    requires
        valid_utf8(bytes),
        0 <= i <= j <= bytes.len(),
        is_char_boundary(bytes, i),
        is_char_boundary(bytes, j),
    ensures
        valid_utf8(bytes.subrange(i, j)),
{
    let head = bytes.subrange(0, j);
    valid_utf8_split(bytes, j);
    if i == j {
        assert(bytes.subrange(i, j) =~= Seq::empty());
    } else {
        is_char_boundary_iff_not_is_continuation_byte(bytes, i);
        is_char_boundary_iff_not_is_continuation_byte(head, i);
        assert(head[i] == bytes[i]);
        valid_utf8_split(head, i);
        assert(head.subrange(i, head.len() as int) =~= bytes.subrange(i, j));
    }
}

/// The values up to the offset at `k` are text together.
proof fn first_values_are_text(bytes: Seq<u8>, offsets: Seq<i64>, k: nat)
    requires
        k < offsets.len(),
        offsets[0] == 0,
        forall|i: int, j: int| 0 <= i <= j <= k ==> offsets[i] <= offsets[j],
        offsets[k as int] <= bytes.len(),
        forall|i: int|
            0 <= i < k ==> valid_utf8(
                bytes.subrange(#[trigger] offsets[i] as int, offsets[i + 1] as int),
            ),
    ensures
        valid_utf8(bytes.take(offsets[k as int] as int)),
    decreases k,
{
    if k == 0 {
        assert(bytes.take(0) =~= Seq::empty());
    } else {
        let j = k - 1;
        first_values_are_text(bytes, offsets, j as nat);
        let from = offsets[j] as int;
        let to = offsets[j + 1] as int;
        valid_utf8_concat(bytes.take(from), bytes.subrange(from, to));
        assert(bytes.take(from) + bytes.subrange(from, to) =~= bytes.take(to));
    }
}

/// Values that fill the bytes are text exactly where each of them is.
pub(crate) proof fn text_is_each_value(bytes: Seq<u8>, offsets: Seq<i64>, len: nat)
    requires
        offsets.len() == len + 1,
        offsets[0] == 0,
        offsets.last() == bytes.len(),
        forall|i: int, j: int| 0 <= i <= j < offsets.len() ==> offsets[i] <= offsets[j],
    ensures
        text_fits(bytes, offsets, len) <==> forall|i: int|
            0 <= i < len ==> valid_utf8(
                bytes.subrange(#[trigger] offsets[i] as int, offsets[i + 1] as int),
            ),
{
    let each = forall|i: int|
        0 <= i < len ==> valid_utf8(
            bytes.subrange(#[trigger] offsets[i] as int, offsets[i + 1] as int),
        );
    if each {
        first_values_are_text(bytes, offsets, len);
        assert(bytes.take(bytes.len() as int) =~= bytes);
        assert forall|k: int| 0 <= k <= len implies is_char_boundary(
            bytes,
            #[trigger] offsets[k] as int,
        ) by {
            let at = offsets[k] as int;
            first_values_are_text(bytes, offsets, k as nat);
            assert(bytes.take(at) + bytes.skip(at) =~= bytes);
            end_is_boundary(bytes.take(at), bytes.skip(at));
        }
    }
    if text_fits(bytes, offsets, len) && valid_utf8(bytes) {
        assert forall|i: int| 0 <= i < len implies valid_utf8(
            bytes.subrange(#[trigger] offsets[i] as int, offsets[i + 1] as int),
        ) by {
            text_between_boundaries(bytes, offsets[i] as int, offsets[i + 1] as int);
        }
    }
}

} // verus!
