//! How the values of an array lie in its buffers.
use vstd::prelude::*;

use crate::arrow_growable::{filler, layout_of, value_lies, Cell, Layout, SourceView};
use crate::schema::DataType;
use crate::sql_value::{kind_of, Kind};

verus! {

/// The numbers of a type with that many bits are laid out in as many bytes as the bits need, one number after
/// the other.
pub open spec fn takes_bits(dtype: DataType, bits: nat) -> bool {
    layout_of(dtype) matches Some(Layout::Fixed(w)) && 8 * w == bits
}

/// Every type is laid out as what it holds: numbers by their bits, points in time and spans as the integers
/// that count them, truth values as bits, texts and byte strings behind offsets, byte strings of one length
/// in as many bytes, and an extension as its storage type. Nothing else can be grown.
pub proof fn types_are_laid_out_as_what_they_hold(dtype: DataType)
    ensures
        kind_of(dtype) matches Some(Kind::Integer(bits, _)) ==> takes_bits(dtype, bits),
        kind_of(dtype) matches Some(Kind::Float(bits)) ==> takes_bits(dtype, bits),
        dtype is Float16 ==> takes_bits(dtype, 16),
        dtype is Decimal128 || dtype is Interval ==> takes_bits(dtype, 128),
        dtype is Date ==> layout_of(dtype) == layout_of(DataType::Int32),
        dtype is Timestamp || dtype is Time || dtype is Duration ==> layout_of(dtype) == layout_of(
            DataType::Int64,
        ),
        dtype is Boolean ==> layout_of(dtype) == Some(Layout::Bits),
        dtype is Utf8 || dtype is Binary ==> layout_of(dtype) == Some(Layout::VarLen),
        dtype matches DataType::FixedSizeBinary(n) ==> takes_bits(dtype, (8 * n) as nat),
        dtype matches DataType::Extension(_, inner, _) ==> layout_of(dtype) == layout_of(*inner),
        dtype is Null || dtype is List || dtype is Struct || dtype is Geometry || dtype is Other
            ==> layout_of(dtype) is None,
{
}

/// An array that starts later in the same buffers reads on from there: its values are those of the earlier
/// one, from as many positions on as it starts later.
pub proof fn later_starts_read_on(source: SourceView, layout: Layout, by: nat, k: int)
    ensures
        (SourceView { start: source.start + by, ..source }).cell(layout, k) == source.cell(
            layout,
            by + k,
        ),
{
    let later = SourceView { start: source.start + by, ..source };
    assert(later.start + k == source.start + (by + k));
}

/// The bytes of the values, one value after the other.
pub open spec fn value_bytes(cells: Seq<Cell>) -> Seq<u8>
    decreases cells.len(),
{
    if cells.len() == 0 {
        Seq::empty()
    } else {
        value_bytes(cells.drop_last()) + match cells.last() {
            Cell::Bytes(b) => b,
            Cell::Bit(_) => Seq::empty(),
        }
    }
}

/// The values of one width fill the bytes from the first to the last without a gap, each of them that wide.
pub proof fn values_of_one_width_fill_the_buffer(source: SourceView, w: nat, start: nat, len: nat)
    requires
        source.holds_range(Layout::Fixed(w), start as int, len),
    ensures
        value_bytes(source.cells(Layout::Fixed(w), start as int, len)) == source.bytes.subrange(
            ((source.start + start) * w) as int,
            ((source.start + start + len) * w) as int,
        ),
        forall|k: int|
            0 <= k < len ==> (#[trigger] source.cell(Layout::Fixed(w), start + k) matches Cell::Bytes(b)
                && b.len() == w),
    decreases len,
{
    let from = (source.start + start) as int;
    let cells = source.cells(Layout::Fixed(w), start as int, len);
    assert(0 <= from * w <= (from + len) * w) by (nonlinear_arith)
        requires
            from >= 0,
            w >= 0,
            len >= 0,
    ;
    if len == 0 {
        assert(cells =~= Seq::empty());
        assert(source.bytes.subrange(from * w, (from + len) * w) =~= Seq::empty());
    } else {
        let before = (len - 1) as nat;
        assert((from + before) * w + w == (from + len) * w && from * w <= (from + before) * w)
            by (nonlinear_arith)
            requires
                before == len - 1,
                from >= 0,
                w >= 0,
                before >= 0,
        ;
        values_of_one_width_fill_the_buffer(source, w, start, before);
        assert(cells.drop_last() =~= source.cells(Layout::Fixed(w), start as int, before));
        assert(cells.last() == source.cell(Layout::Fixed(w), (start + before) as int));
        assert(from + before + 1 == from + len);
        assert(source.bytes.subrange(from * w, (from + len) * w) =~= source.bytes.subrange(
            from * w,
            (from + before) * w,
        ) + source.bytes.subrange((from + before) * w, (from + len) * w));
    }
}

/// The values of any length fill their bytes from the first offset of the range to the last without a gap.
pub proof fn values_of_any_length_fill_the_buffer(source: SourceView, start: nat, len: nat)
    requires
        source.holds_range(Layout::VarLen, start as int, len),
        len > 0,
    ensures
        value_bytes(source.cells(Layout::VarLen, start as int, len)) == source.values->0.subrange(
            source.offsets[(source.start + start) as int] as int,
            source.offsets[(source.start + start + len) as int] as int,
        ),
        source.offsets[(source.start + start) as int] <= source.offsets[(source.start + start
            + len) as int],
    decreases len,
{
    let from = (source.start + start) as int;
    let all = source.values->0;
    let cells = source.cells(Layout::VarLen, start as int, len);
    let before = (len - 1) as nat;
    assert(value_lies(source.offsets, all.len(), from));
    assert(value_lies(source.offsets, all.len(), from + before));
    assert(cells.last() == source.cell(Layout::VarLen, (start + before) as int));
    let rest = source.cells(Layout::VarLen, start as int, before);
    assert(cells.drop_last() =~= rest);
    if before == 0 {
        assert(value_bytes(rest) =~= Seq::empty());
        assert(value_bytes(cells) =~= all.subrange(
            source.offsets[from] as int,
            source.offsets[from + 1] as int,
        ));
    } else {
        values_of_any_length_fill_the_buffer(source, start, before);
        let mid = source.offsets[from + before] as int;
        assert(all.subrange(
            source.offsets[from] as int,
            source.offsets[from + before + 1] as int,
        ) =~= all.subrange(source.offsets[from] as int, mid) + all.subrange(
            mid,
            source.offsets[from + before + 1] as int,
        ));
    }
}

/// What stands in the place of a null is zero throughout, and as wide as any other value.
pub proof fn fillers_are_zero(layout: Layout)
    ensures
        match (layout, filler(layout)) {
            (Layout::Fixed(w), Cell::Bytes(b)) => b.len() == w && forall|i: int|
                0 <= i < w ==> #[trigger] b[i] == 0,
            (Layout::Bits, Cell::Bit(b)) => !b,
            (Layout::VarLen, Cell::Bytes(b)) => b.len() == 0,
            _ => false,
        },
{
}

} // verus!
