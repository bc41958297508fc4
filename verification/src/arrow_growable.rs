//! Growing Arrow arrays from ranges of other arrays.
//!
//! A growable copies the values of ranges of its source arrays straight into raw buffers. There are
//! three buffer layouts: values of one width, bits, and values of any length behind a list of offsets.
//! Whatever the layout, a growable stands for a list of values and their validity, to which a range of
//! a source is appended, or a run of nulls; and an array that is built from it holds that list.
use arrow::array::{ArrayData, BooleanBufferBuilder, NullBufferBuilder};
use arrow::buffer::{Buffer, MutableBuffer, NullBuffer};
use arrow::error::ArrowError;
use vstd::prelude::*;
use vstd::utf8::valid_utf8;

use crate::arrow_buffers::{
    all_present, array_buffers, array_build, array_bytes, array_len, array_nulls, array_offset,
    array_offsets, array_share, array_start, array_type, array_type_of, array_validity,
    arrow_error_message, bit_at, bitmap_append, bitmap_append_n, bitmap_finish, bitmap_new,
    bitmap_values, buffer_bytes, buffer_offsets, buffer_read_offsets, buffer_slice, buffers_fit,
    list_bytes, list_offsets, mutable_bytes, mutable_extend, mutable_freeze, mutable_len,
    mutable_new, mutable_resize, null_flags, null_len, null_slice, offsets_fit, offsets_freeze,
    same_array_type, size_limit, validity_append, validity_append_absent, validity_append_present,
    validity_finish, validity_flags, validity_new, ArrayType,
};
use crate::arrow_text::text_is_each_value;
use crate::error::DaftError;
use crate::schema::{DataType, Field};

verus! {

/// How the values of a type are laid out in buffers.
pub enum Layout {
    /// Values of this many bytes, one after the other.
    Fixed(nat),
    /// One bit per value.
    Bits,
    /// Offsets, and the bytes of the values between them.
    VarLen,
}

/// The layout of a type that can be grown.
pub open spec fn layout_of(dtype: DataType) -> Option<Layout>
    decreases dtype,
{
    match dtype {
        DataType::Boolean => Some(Layout::Bits),
        DataType::Int8 | DataType::UInt8 => Some(Layout::Fixed(1)),
        DataType::Int16 | DataType::UInt16 | DataType::Float16 => Some(Layout::Fixed(2)),
        DataType::Int32 | DataType::UInt32 | DataType::Float32 | DataType::Date => Some(
            Layout::Fixed(4),
        ),
        DataType::Int64
        | DataType::UInt64
        | DataType::Float64
        | DataType::Timestamp(_, _)
        | DataType::Duration(_)
        | DataType::Time(_) => Some(Layout::Fixed(8)),
        DataType::Decimal128(_, _) | DataType::Interval => Some(Layout::Fixed(16)),
        DataType::Utf8 | DataType::Binary => Some(Layout::VarLen),
        DataType::FixedSizeBinary(n) => Some(Layout::Fixed(n as nat)),
        DataType::Extension(_, inner, _) => layout_of(*inner),
        _ => None,
    }
}

/// Arrays of the Arrow type have buffers of the layout.
pub open spec fn type_fits(t: ArrayType, layout: Layout) -> bool {
    match (layout, t) {
        (Layout::Fixed(w), ArrayType::Primitive(width)) => w == width,
        (Layout::Fixed(w), ArrayType::FixedBytes(width)) => w == width,
        (Layout::Bits, ArrayType::Bits) => true,
        (Layout::VarLen, ArrayType::LargeText) => true,
        (Layout::VarLen, ArrayType::LargeBytes) => true,
        _ => false,
    }
}

/// One value.
pub enum Cell {
    Bytes(Seq<u8>),
    Bit(bool),
}

/// The value is text.
pub open spec fn is_text(c: Cell) -> bool {
    c matches Cell::Bytes(bytes) && valid_utf8(bytes)
}

/// The values can be those of an array of the type: where it holds text, each of them is.
pub open spec fn values_fit(t: ArrayType, values: Seq<Cell>) -> bool {
    t is LargeText ==> forall|i: int| 0 <= i < values.len() ==> is_text(#[trigger] values[i])
}

/// The value that stands in the place of a null.
pub open spec fn filler(layout: Layout) -> Cell {
    match layout {
        Layout::Fixed(w) => Cell::Bytes(Seq::new(w, |i: int| 0u8)),
        Layout::Bits => Cell::Bit(false),
        Layout::VarLen => Cell::Bytes(Seq::empty()),
    }
}

/// What is read of a source array.
#[verifier::ext_equal]
pub struct SourceView {
    /// The position in the buffers at which the array starts.
    pub start: nat,
    /// The validity of its values, where it has a bitmap.
    pub nulls: Option<Seq<bool>>,
    /// The bytes of its first buffer.
    pub bytes: Seq<u8>,
    /// The first buffer, read as offsets.
    pub offsets: Seq<i64>,
    /// The bytes of its second buffer, where it has one.
    pub values: Option<Seq<u8>>,
}

/// What is read of an array.
pub open spec fn source_view(a: ArrayData) -> SourceView {
    SourceView {
        start: array_start(a),
        nulls: array_nulls(a),
        bytes: array_bytes(a)[0],
        offsets: array_offsets(a)[0],
        values: if array_bytes(a).len() > 1 {
            Some(array_bytes(a)[1])
        } else {
            None
        },
    }
}

/// The offsets at `i` bound a value in that many bytes.
pub open spec fn value_lies(offsets: Seq<i64>, size: nat, i: int) -> bool {
    &&& i + 1 < offsets.len()
    &&& 0 <= offsets[i] <= offsets[i + 1] <= size
}

impl SourceView {
    /// The value at a position of the source.
    pub open spec fn cell(self, layout: Layout, k: int) -> Cell {
        let i = self.start + k;
        match layout {
            Layout::Fixed(w) => Cell::Bytes(self.bytes.subrange(i * w, (i + 1) * w)),
            Layout::Bits => Cell::Bit(bit_at(self.bytes, i)),
            Layout::VarLen => Cell::Bytes(
                self.values->0.subrange(self.offsets[i] as int, self.offsets[i + 1] as int),
            ),
        }
    }

    /// The values of a range of the source.
    pub open spec fn cells(self, layout: Layout, start: int, len: nat) -> Seq<Cell> {
        Seq::new(len, |k: int| self.cell(layout, start + k))
    }

    /// The validity of a range of the source.
    pub open spec fn flags(self, start: int, len: nat) -> Seq<bool> {
        match self.nulls {
            Some(flags) => flags.subrange(start, start + len),
            None => Seq::new(len, |k: int| true),
        }
    }

    /// The number of bytes of values in a range of the source.
    pub open spec fn value_size(self, layout: Layout, start: int, len: nat) -> int
        decreases len,
    {
        match layout {
            Layout::Fixed(w) => (len * w) as int,
            Layout::Bits => 0,
            Layout::VarLen => if len == 0 {
                0
            } else {
                let i = self.start + start + len - 1;
                self.value_size(layout, start, (len - 1) as nat) + self.offsets[i + 1]
                    - self.offsets[i]
            },
        }
    }

    /// The range lies in the source's buffers.
    pub open spec fn holds_range(self, layout: Layout, start: int, len: nat) -> bool {
        let from = self.start + start;
        match layout {
            Layout::Fixed(w) => (from + len) * w <= self.bytes.len(),
            Layout::Bits => from + len <= 8 * self.bytes.len(),
            Layout::VarLen => {
                &&& self.bytes.len() % 8 == 0
                &&& self.values is Some
                &&& forall|i: int|
                    from <= i < from + len ==> #[trigger] value_lies(
                        self.offsets,
                        self.values->0.len(),
                        i,
                    )
            },
        }
    }

    /// The range can be appended: it lies in the source's buffers and in its bitmap, and no position in
    /// it is beyond what can be counted.
    pub open spec fn readable(self, layout: Layout, start: int, len: nat) -> bool {
        &&& self.start + start + len < usize::MAX
        &&& self.nulls matches Some(flags) ==> start + len <= flags.len()
        &&& layout is VarLen ==> self.bytes.len() <= size_limit()
        &&& self.holds_range(layout, start, len)
    }
}

/// What is kept of one source array, so that appending from it looks nothing up.
struct SourceCache {
    offset: usize,
    nulls: Option<NullBuffer>,
    /// The values, or the offsets of values of any length.
    buf0: Buffer,
    /// The offsets, where the values have any length.
    offsets: Vec<i64>,
    /// The values, where they have any length.
    buf1: Option<Buffer>,
}

impl SourceCache {
    /// What is read of the source.
    spec fn view(&self) -> SourceView {
        SourceView {
            start: self.offset as nat,
            nulls: match self.nulls {
                Some(flags) => Some(null_flags(flags)),
                None => None,
            },
            bytes: buffer_bytes(self.buf0),
            offsets: buffer_offsets(self.buf0),
            values: match self.buf1 {
                Some(b) => Some(buffer_bytes(b)),
                None => None,
            },
        }
    }

    /// The offsets have been read where they are needed and can be.
    spec fn wf(&self, layout: Layout) -> bool {
        layout is VarLen && buffer_bytes(self.buf0).len() % 8 == 0 && buffer_bytes(
            self.buf0,
        ).len() <= size_limit() ==> self.offsets@ == buffer_offsets(self.buf0)
    }
}

/// The buffers that values are copied into.
enum ValueGrower {
    FixedWidth { buffer: MutableBuffer, byte_width: usize },
    Boolean { builder: BooleanBufferBuilder },
    VarLen { offsets: Vec<i64>, values: MutableBuffer },
}

/// A value of one width.
spec fn fixed_cell(bytes: Seq<u8>, w: nat, i: int) -> Cell {
    Cell::Bytes(bytes.subrange(i * w, (i + 1) * w))
}

impl ValueGrower {
    /// The layout of the buffers.
    spec fn layout(&self) -> Layout {
        match *self {
            ValueGrower::FixedWidth { buffer, byte_width } => Layout::Fixed(byte_width as nat),
            ValueGrower::Boolean { builder } => Layout::Bits,
            ValueGrower::VarLen { offsets, values } => Layout::VarLen,
        }
    }

    /// The number of bytes of values.
    spec fn size(&self) -> nat {
        match *self {
            ValueGrower::FixedWidth { buffer, byte_width } => mutable_bytes(buffer).len(),
            ValueGrower::Boolean { builder } => 0,
            ValueGrower::VarLen { offsets, values } => mutable_bytes(values).len(),
        }
    }

    /// The buffers hold `len` values.
    spec fn holds(&self, len: nat) -> bool {
        match *self {
            ValueGrower::FixedWidth { buffer, byte_width } => mutable_bytes(buffer).len() == len
                * byte_width,
            ValueGrower::Boolean { builder } => bitmap_values(builder).len() == len,
            ValueGrower::VarLen { offsets, values } => are_offsets(
                offsets@,
                mutable_bytes(values).len(),
            ) && offsets@.len() == len + 1,
        }
    }

    /// The buffers are those of `len` values, and nothing more.
    spec fn frozen(&self, len: nat, buffers: Seq<Buffer>) -> bool {
        match *self {
            ValueGrower::FixedWidth { buffer, byte_width } => buffers.len() == 1 && buffer_bytes(
                buffers[0],
            ).len() == len * byte_width,
            ValueGrower::Boolean { builder } => buffers.len() == 1 && buffer_bytes(buffers[0]).len()
                == (len + 7) / 8,
            ValueGrower::VarLen { offsets, values } => buffers.len() == 2 && buffer_bytes(
                buffers[0],
            ).len() == 8 * (len + 1) && buffer_offsets(buffers[0]) == offsets@ && buffer_bytes(
                buffers[1],
            ) == mutable_bytes(values),
        }
    }

    /// The value at a position.
    spec fn cell(&self, i: int) -> Cell {
        match *self {
            ValueGrower::FixedWidth { buffer, byte_width } => fixed_cell(
                mutable_bytes(buffer),
                byte_width as nat,
                i,
            ),
            ValueGrower::Boolean { builder } => Cell::Bit(bitmap_values(builder)[i]),
            ValueGrower::VarLen { offsets, values } => Cell::Bytes(
                mutable_bytes(values).subrange(offsets@[i] as int, offsets@[i + 1] as int),
            ),
        }
    }

    /// The values.
    spec fn cells(&self, len: nat) -> Seq<Cell> {
        Seq::new(len, |i: int| self.cell(i))
    }
}

/// Offsets into values of that many bytes: they start at zero, never decrease, and end at the end.
#[verifier::opaque]
spec fn are_offsets(offsets: Seq<i64>, size: nat) -> bool {
    &&& offsets.len() >= 1
    &&& offsets[0] == 0
    &&& offsets.last() == size
    &&& forall|i: int, j: int| 0 <= i <= j < offsets.len() ==> offsets[i] <= offsets[j]
}

/// A layout, as it is computed.
enum LayoutKind {
    Fixed(usize),
    Bits,
    VarLen,
}

impl LayoutKind {
    /// The layout that is meant.
    spec fn layout(&self) -> Layout {
        match *self {
            LayoutKind::Fixed(width) => Layout::Fixed(width as nat),
            LayoutKind::Bits => Layout::Bits,
            LayoutKind::VarLen => Layout::VarLen,
        }
    }

    /// Whether arrays of the Arrow type have buffers of the layout.
    fn is_of(&self, t: ArrayType) -> (r: bool)
        ensures
            r == type_fits(t, self.layout()),
    {
        match (self, t) {
            (LayoutKind::Fixed(w), ArrayType::Primitive(width)) => *w == width,
            (LayoutKind::Fixed(w), ArrayType::FixedBytes(width)) => width >= 0 && *w
                == width as usize,
            (LayoutKind::Bits, ArrayType::Bits) => true,
            (LayoutKind::VarLen, ArrayType::LargeText) => true,
            (LayoutKind::VarLen, ArrayType::LargeBytes) => true,
            _ => false,
        }
    }
}

/// The layout of a type that can be grown, an extension being laid out as its storage type.
fn layout_kind(dtype: &DataType) -> (r: Option<LayoutKind>)
    ensures
        match r {
            Some(kind) => layout_of(*dtype) == Some(kind.layout()),
            None => layout_of(*dtype) is None,
        },
    decreases *dtype,
{
    match dtype {
        DataType::Boolean => Some(LayoutKind::Bits),
        DataType::Int8 | DataType::UInt8 => Some(LayoutKind::Fixed(1)),
        DataType::Int16 | DataType::UInt16 | DataType::Float16 => Some(LayoutKind::Fixed(2)),
        DataType::Int32 | DataType::UInt32 | DataType::Float32 | DataType::Date => Some(
            LayoutKind::Fixed(4),
        ),
        DataType::Int64
        | DataType::UInt64
        | DataType::Float64
        | DataType::Timestamp(_, _)
        | DataType::Duration(_)
        | DataType::Time(_) => Some(LayoutKind::Fixed(8)),
        DataType::Decimal128(_, _) | DataType::Interval => Some(LayoutKind::Fixed(16)),
        DataType::Utf8 | DataType::Binary => Some(LayoutKind::VarLen),
        DataType::FixedSizeBinary(n) => Some(LayoutKind::Fixed(*n)),
        DataType::Extension(_, inner, _) => layout_kind(inner),
        _ => None,
    }
}

/// The buffers can be asked to hold that many values of the layout.
pub open spec fn capacity_fits(layout: Layout, capacity: nat) -> bool {
    &&& capacity <= size_limit()
    &&& layout matches Layout::Fixed(w) ==> capacity * w <= size_limit()
}

/// Whether so many values of so many bytes can be held.
fn product_fits(count: usize, width: usize) -> (r: bool)
    ensures
        r == (count * width <= size_limit()),
{
    match count.checked_mul(width) {
        Some(size) => size <= (isize::MAX as usize) / 4,
        None => false,
    }
}

/// Selects the buffers for a type.
fn grower_from_dtype(dtype: &DataType, capacity: usize) -> (r: ValueGrower)
    requires
        layout_of(*dtype) matches Some(layout) && capacity_fits(layout, capacity as nat),
    ensures
        Some(r.layout()) == layout_of(*dtype),
        r.holds(0),
        r.size() == 0,
{
    match layout_kind(dtype) {
        Some(LayoutKind::Bits) => ValueGrower::Boolean { builder: bitmap_new(capacity) },
        Some(LayoutKind::Fixed(width)) => fixed_width(width, capacity),
        Some(LayoutKind::VarLen) => {
            let mut offsets: Vec<i64> = Vec::new();
            offsets.push(0);
            proof {
                reveal(are_offsets);
            }
            ValueGrower::VarLen { offsets, values: mutable_new(0) }
        },
        None => vstd::pervasive::unreached(),
    }
}

fn fixed_width(byte_width: usize, capacity: usize) -> (r: ValueGrower)
    requires
        capacity * byte_width <= size_limit(),
    ensures
        r.layout() == Layout::Fixed(byte_width as nat),
        r.holds(0),
        r.size() == 0,
{
    assert(0 * byte_width == 0);
    ValueGrower::FixedWidth { buffer: mutable_new(capacity * byte_width), byte_width }
}

/// Appending values of one width appends their bytes.
proof fn fixed_cells_append(
    before: Seq<u8>,
    src: Seq<u8>,
    w: nat,
    n: nat,
    from: nat,
    len: nat,
)
    requires
        before.len() == n * w,
        (from + len) * w <= src.len(),
    ensures
        from * w <= (from + len) * w,
        from * w + len * w == (from + len) * w,
        ({
            let after = before + src.subrange((from * w) as int, ((from + len) * w) as int);
            &&& after.len() == (n + len) * w
            &&& forall|i: int| 0 <= i < n ==> #[trigger] fixed_cell(after, w, i) == fixed_cell(before, w, i)
            &&& forall|i: int|
                n <= i < n + len ==> #[trigger] fixed_cell(after, w, i) == fixed_cell(
                    src,
                    w,
                    from + i - n,
                )
        }),
{
    assert(from * w + len * w == (from + len) * w) by (nonlinear_arith);
    assert(n * w + len * w == (n + len) * w) by (nonlinear_arith);
    assert(len * w >= 0) by (nonlinear_arith);
    let after = before + src.subrange((from * w) as int, ((from + len) * w) as int);
    assert forall|i: int| 0 <= i < n implies #[trigger] fixed_cell(after, w, i) == fixed_cell(
        before,
        w,
        i,
    ) by {
        assert(0 <= i * w && i * w <= (i + 1) * w && (i + 1) * w <= n * w) by (nonlinear_arith)
            requires
                0 <= i < n,
                w >= 0,
        ;
        assert(after.subrange(i * w, (i + 1) * w) =~= before.subrange(i * w, (i + 1) * w));
    }
    assert forall|i: int| n <= i < n + len implies #[trigger] fixed_cell(after, w, i)
        == fixed_cell(src, w, from + i - n) by {
        let k = i - n;
        assert(n * w <= i * w && i * w <= (i + 1) * w && (i + 1) * w <= (n + len) * w && i * w - n
            * w == k * w && (from + k) * w == from * w + k * w && (i + 1) * w - i * w == w && (from
            + k + 1) * w == (from + k) * w + w) by (nonlinear_arith)
            requires
                n <= i < n + len,
                k == i - n,
                w >= 0,
        ;
        assert(after.subrange(i * w, (i + 1) * w) =~= src.subrange(
            (from + k) * w,
            (from + k + 1) * w,
        ));
    }
}

/// Copies a range of values of one width.
fn extend_fixed(buffer: &mut MutableBuffer, byte_width: usize, src: &[u8], base: usize, len: usize)
    requires
        (base + len) * byte_width <= src@.len(),
        mutable_bytes(*old(buffer)).len() + len * byte_width <= size_limit(),
    ensures
        mutable_bytes(*final(buffer)) == mutable_bytes(*old(buffer)) + src@.subrange(
            base * byte_width,
            (base + len) * byte_width,
        ),
{
    proof {
        assert(base * byte_width + len * byte_width == (base + len) * byte_width) by (
        nonlinear_arith);
        assert(base * byte_width >= 0 && len * byte_width >= 0) by (nonlinear_arith);
        assert(src@.len() == src.len());
    }
    let byte_start: usize = base * byte_width;
    let byte_len: usize = len * byte_width;
    mutable_extend(buffer, &src[byte_start..byte_start + byte_len]);
}

/// Copies a range of bits.
fn extend_bits(builder: &mut BooleanBufferBuilder, src: &[u8], base: usize, len: usize)
    requires
        base + len <= 8 * src@.len(),
        base + len <= usize::MAX,
        bitmap_values(*old(builder)).len() + len <= size_limit(),
    ensures
        bitmap_values(*final(builder)) == bitmap_values(*old(builder)) + Seq::new(
            len as nat,
            |k: int| bit_at(src@, base + k),
        ),
{
    let ghost before = bitmap_values(*builder);
    let mut i: usize = 0;
    assert(before + Seq::new(0nat, |k: int| bit_at(src@, base + k)) =~= before);
    while i < len
        invariant
            i <= len,
            base + len <= 8 * src@.len(),
            base + len <= usize::MAX,
            before.len() + len <= size_limit(),
            bitmap_values(*builder) == before + Seq::new(
                i as nat,
                |k: int| bit_at(src@, base + k),
            ),
        decreases len - i,
    {
        let bit_idx: usize = base + i;
        let shift: u8 = (bit_idx % 8) as u8;
        let is_set = (src[bit_idx / 8] >> shift) & 1 == 1;
        bitmap_append(builder, is_set);
        i = i + 1;
        assert(bitmap_values(*builder) =~= before + Seq::new(
            i as nat,
            |k: int| bit_at(src@, base + k),
        ));
    }
}

/// The value between two offsets.
spec fn between(values: Seq<u8>, offsets: Seq<i64>, i: int) -> Cell {
    Cell::Bytes(values.subrange(offsets[i] as int, offsets[i + 1] as int))
}

/// Appending one value after the last offset.
proof fn between_append(values: Seq<u8>, offsets: Seq<i64>, added: Seq<u8>, end: i64)
    requires
        are_offsets(offsets, values.len()),
        end == values.len() + added.len(),
    ensures
        are_offsets(offsets.push(end), (values + added).len()),
        forall|i: int|
            0 <= i < offsets.len() - 1 ==> #[trigger] between(values + added, offsets.push(end), i)
                == between(values, offsets, i),
        between(values + added, offsets.push(end), offsets.len() - 1) == Cell::Bytes(added),
{
    reveal(are_offsets);
    let more = offsets.push(end);
    let all = values + added;
    assert forall|i: int, j: int| 0 <= i <= j < more.len() implies more[i] <= more[j] by {
        if j == offsets.len() && i < j {
            assert(offsets[i] <= offsets[offsets.len() - 1]);
        }
    }
    assert forall|i: int| 0 <= i < offsets.len() - 1 implies #[trigger] between(all, more, i)
        == between(values, offsets, i) by {
        assert(0 <= offsets[0] <= offsets[i] <= offsets[i + 1] <= offsets[offsets.len() - 1]);
        assert(all.subrange(offsets[i] as int, offsets[i + 1] as int) =~= values.subrange(
            offsets[i] as int,
            offsets[i + 1] as int,
        ));
    }
    assert(all.subrange(values.len() as int, all.len() as int) =~= added);
}

/// The number of bytes between the offsets of a range.
spec fn range_size(offsets: Seq<i64>, from: int, len: nat) -> int
    decreases len,
{
    if len == 0 {
        0
    } else {
        range_size(offsets, from, (len - 1) as nat) + offsets[from + len] - offsets[from + len - 1]
    }
}

proof fn range_size_grows(offsets: Seq<i64>, size: nat, from: int, i: nat, len: nat)
    requires
        i <= len,
        forall|k: int| from <= k < from + len ==> #[trigger] value_lies(offsets, size, k),
    ensures
        0 <= range_size(offsets, from, i) <= range_size(offsets, from, len),
    decreases len,
{
    if len > 0 {
        let shorter = (len - 1) as nat;
        range_size_grows(
            offsets,
            size,
            from,
            if i < len {
                i
            } else {
                shorter
            },
            shorter,
        );
        assert(value_lies(offsets, size, from + len - 1));
    }
}

/// Whether the values of a range lie in so many bytes, and have no more bytes than there is room for.
fn values_lie(offsets: &Vec<i64>, size: usize, base: usize, len: usize, room: usize) -> (r: bool)
    requires
        base + len < usize::MAX,
    ensures
        r == ((forall|i: int|
            base <= i < base + len ==> #[trigger] value_lies(offsets@, size as nat, i)) && range_size(
            offsets@,
            base as int,
            len as nat,
        ) <= room),
{
    let mut total: usize = 0;
    let mut i: usize = 0;
    while i < len
        invariant
            i <= len,
            base + len < usize::MAX,
            total <= room,
            total == range_size(offsets@, base as int, i as nat),
            forall|k: int|
                base <= k < base + i ==> #[trigger] value_lies(offsets@, size as nat, k),
        decreases len - i,
    {
        let at: usize = base + i;
        if at + 1 >= offsets.len() {
            assert(!value_lies(offsets@, size as nat, at as int));
            return false;
        }
        let from: i64 = offsets[at];
        let to: i64 = offsets[at + 1];
        if from < 0 || from > to || to as u64 > size as u64 {
            assert(!value_lies(offsets@, size as nat, at as int));
            return false;
        }
        let added: usize = (to - from) as usize;
        proof {
            assert(range_size(offsets@, base as int, (i + 1) as nat) == total + added);
            assert(value_lies(offsets@, size as nat, at as int));
        }
        if added > room - total {
            proof {
                if forall|k: int|
                    base <= k < base + len ==> #[trigger] value_lies(offsets@, size as nat, k) {
                    range_size_grows(
                        offsets@,
                        size as nat,
                        base as int,
                        (i + 1) as nat,
                        len as nat,
                    );
                }
            }
            return false;
        }
        total = total + added;
        i = i + 1;
    }
    true
}

/// Appends one value.
fn append_value(offsets: &mut Vec<i64>, values: &mut MutableBuffer, bytes: &[u8])
    requires
        are_offsets(old(offsets)@, mutable_bytes(*old(values)).len()),
        mutable_bytes(*old(values)).len() + bytes@.len() <= size_limit(),
    ensures
        are_offsets(final(offsets)@, mutable_bytes(*final(values)).len()),
        final(offsets)@.len() == old(offsets)@.len() + 1,
        mutable_bytes(*final(values)).len() == mutable_bytes(*old(values)).len() + bytes@.len(),
        forall|i: int|
            0 <= i < old(offsets)@.len() - 1 ==> #[trigger] between(
                mutable_bytes(*final(values)),
                final(offsets)@,
                i,
            ) == between(mutable_bytes(*old(values)), old(offsets)@, i),
        between(mutable_bytes(*final(values)), final(offsets)@, old(offsets)@.len() - 1)
            == Cell::Bytes(bytes@),
{
    proof {
        reveal(are_offsets);
    }
    let last: i64 = offsets[offsets.len() - 1];
    let end: i64 = last + bytes.len() as i64;
    proof {
        between_append(mutable_bytes(*values), offsets@, bytes@, end);
    }
    mutable_extend(values, bytes);
    offsets.push(end);
}

/// Copies a range of values of any length.
fn extend_var_len(
    offsets: &mut Vec<i64>,
    values: &mut MutableBuffer,
    src_offsets: &Vec<i64>,
    src_values: &[u8],
    base: usize,
    len: usize,
)
    requires
        are_offsets(old(offsets)@, mutable_bytes(*old(values)).len()),
        old(offsets)@.len() >= 1,
        base + len < usize::MAX,
        forall|i: int|
            base <= i < base + len ==> #[trigger] value_lies(
                src_offsets@,
                src_values@.len(),
                i,
            ),
        mutable_bytes(*old(values)).len() + range_size(src_offsets@, base as int, len as nat)
            <= size_limit(),
    ensures
        are_offsets(final(offsets)@, mutable_bytes(*final(values)).len()),
        final(offsets)@.len() == old(offsets)@.len() + len,
        mutable_bytes(*final(values)).len() == mutable_bytes(*old(values)).len() + range_size(
            src_offsets@,
            base as int,
            len as nat,
        ),
        forall|i: int|
            0 <= i < old(offsets)@.len() - 1 ==> #[trigger] between(
                mutable_bytes(*final(values)),
                final(offsets)@,
                i,
            ) == between(mutable_bytes(*old(values)), old(offsets)@, i),
        forall|i: int|
            old(offsets)@.len() - 1 <= i < final(offsets)@.len() - 1 ==> #[trigger] between(
                mutable_bytes(*final(values)),
                final(offsets)@,
                i,
            ) == between(src_values@, src_offsets@, base + i - (old(offsets)@.len() - 1)),
{
    let ghost n = offsets@.len() - 1;
    let ghost offsets0 = offsets@;
    let ghost values0 = mutable_bytes(*values);
    let ghost from = base as int;
    let mut i: usize = 0;
    while i < len
        invariant
            i <= len,
            base + len < usize::MAX,
            from == base,
            n == offsets0.len() - 1,
            n >= 0,
            forall|i: int|
                base <= i < base + len ==> #[trigger] value_lies(
                    src_offsets@,
                    src_values@.len(),
                    i,
                ),
            values0.len() + range_size(src_offsets@, from, len as nat) <= size_limit(),
            are_offsets(offsets@, mutable_bytes(*values).len()),
            offsets@.len() == n + 1 + i,
            mutable_bytes(*values).len() == values0.len() + range_size(
                src_offsets@,
                from,
                i as nat,
            ),
            forall|k: int|
                0 <= k < n ==> #[trigger] between(mutable_bytes(*values), offsets@, k) == between(
                    values0,
                    offsets0,
                    k,
                ),
            forall|k: int|
                n <= k < n + i ==> #[trigger] between(mutable_bytes(*values), offsets@, k)
                    == between(src_values@, src_offsets@, base + k - n),
        decreases len - i,
    {
        let idx: usize = base + i;
        let ghost before = mutable_bytes(*values);
        let ghost before_offsets = offsets@;
        proof {
            assert(value_lies(src_offsets@, src_values@.len(), idx as int));
            range_size_grows(src_offsets@, src_values@.len(), from, (i + 1) as nat, len as nat);
            assert(src_values@.len() == src_values.len());
        }
        let val_start: usize = src_offsets[idx] as usize;
        let val_end: usize = src_offsets[idx + 1] as usize;
        append_value(offsets, values, &src_values[val_start..val_end]);
        i = i + 1;
        proof {
            assert forall|k: int| 0 <= k < n implies #[trigger] between(
                mutable_bytes(*values),
                offsets@,
                k,
            ) == between(values0, offsets0, k) by {
                assert(between(before, before_offsets, k) == between(values0, offsets0, k));
            }
            assert forall|k: int| n <= k < n + i implies #[trigger] between(
                mutable_bytes(*values),
                offsets@,
                k,
            ) == between(src_values@, src_offsets@, base + k - n) by {
                if k < n + i - 1 {
                    assert(between(before, before_offsets, k) == between(
                        src_values@,
                        src_offsets@,
                        base + k - n,
                    ));
                } else {
                    assert(k == before_offsets.len() - 1);
                    assert(base + k - n == idx);
                }
            }
        }
    }
}

/// A named column.
#[derive(Debug)]
pub struct Series {
    pub field: Field,
    pub data: ArrayData,
}

/// A column from an array that Arrow has put together, or Arrow's error.
pub fn series_from(name: &str, dtype: &DataType, built: Result<ArrayData, ArrowError>) -> (r: Result<
    Series,
    DaftError,
>)
    ensures
        match built {
            Ok(data) => r matches Ok(series) && series.field.name@ == name@ && series.field.dtype
                == *dtype && series.data == data,
            Err(_) => r matches Err(e) && e is External,
        },
{
    match built {
        Ok(data) => Ok(Series { field: Field::new(name, dtype.clone()), data }),
        Err(e) => Err(DaftError::External(arrow_error_message(&e))),
    }
}

/// A growable for every type that is laid out in Arrow buffers.
pub struct ArrowGrowable {
    name: String,
    dtype: DataType,
    /// An array of the type to build.
    like: ArrayData,
    sources: Vec<SourceCache>,
    grower: ValueGrower,
    validity: Option<NullBufferBuilder>,
    len: usize,
}

/// Some source has a validity bitmap.
pub open spec fn any_nulls(sources: Seq<SourceView>) -> bool {
    exists|i: int| 0 <= i < sources.len() && (#[trigger] sources[i]).nulls is Some
}

/// The array whose Arrow type is built: the first one, or `empty` where there is none.
pub open spec fn target_array(arrays: Seq<ArrayData>, empty: ArrayData) -> ArrayData {
    if arrays.len() > 0 {
        arrays[0]
    } else {
        empty
    }
}

/// The type can be grown from the arrays: it has a layout, the array to build has buffers of that
/// layout, and every array has a buffer.
pub open spec fn growable_over(
    dtype: DataType,
    arrays: Seq<ArrayData>,
    capacity: nat,
    empty: ArrayData,
) -> bool {
    &&& layout_of(dtype) matches Some(layout) && capacity_fits(layout, capacity) && type_fits(
        array_type(target_array(arrays, empty)),
        layout,
    )
    &&& forall|i: int| 0 <= i < arrays.len() ==> array_bytes(#[trigger] arrays[i]).len() >= 1
}

/// What is read of the arrays.
pub open spec fn source_views(arrays: Seq<ArrayData>) -> Seq<SourceView> {
    arrays.map_values(|a: ArrayData| source_view(a))
}

/// The array holds the values and their validity.
pub open spec fn array_holds(
    a: ArrayData,
    layout: Layout,
    values: Seq<Cell>,
    flags: Option<Seq<bool>>,
) -> bool {
    &&& array_len(a) == values.len()
    &&& array_start(a) == 0
    &&& source_view(a).holds_range(layout, 0, values.len())
    &&& source_view(a).cells(layout, 0, values.len()) == values
    &&& match array_nulls(a) {
        Some(present) => flags == Some(present),
        None => flags matches Some(present) ==> all_present(present),
    }
}

/// Reads the buffers of a source array once.
fn cache_source(data: &ArrayData, Ghost(layout): Ghost<Layout>) -> (r: SourceCache)
    requires
        array_bytes(*data).len() >= 1,
    ensures
        r.view() == source_view(*data),
        r.wf(layout),
{
    let mut bufs = array_buffers(data);
    proof {
        let list = bufs@;
        assert(list_bytes(list).len() == list.len());
        assert(list_bytes(list)[0] == buffer_bytes(list[0]));
        assert(list_offsets(list)[0] == buffer_offsets(list[0]));
        if list.len() > 1 {
            assert(list_bytes(list)[1] == buffer_bytes(list[1]));
        }
    }
    let buf1 = if bufs.len() > 1 {
        Some(bufs.swap_remove(1))
    } else {
        None
    };
    let buf0 = bufs.swap_remove(0);
    let size: usize = buffer_slice(&buf0).len();
    let offsets = if size % 8 == 0 && size <= (isize::MAX as usize) / 4 {
        buffer_read_offsets(&buf0)
    } else {
        Vec::new()
    };
    let r = SourceCache {
        offset: array_offset(data),
        nulls: array_validity(data),
        buf0,
        offsets,
        buf1,
    };
    assert(r.view() =~= source_view(*data));
    r
}

impl ArrowGrowable {
    /// The layout of the buffers.
    pub closed spec fn layout(&self) -> Layout {
        self.grower.layout()
    }

    /// The values appended so far.
    pub closed spec fn values(&self) -> Seq<Cell> {
        self.grower.cells(self.len as nat)
    }

    /// The validity of the values, where it is tracked.
    pub closed spec fn flags(&self) -> Option<Seq<bool>> {
        match self.validity {
            Some(v) => Some(validity_flags(v)),
            None => None,
        }
    }

    /// What is read of the sources.
    pub closed spec fn sources(&self) -> Seq<SourceView> {
        self.sources@.map_values(|s: SourceCache| s.view())
    }

    /// The number of bytes of values appended so far.
    pub closed spec fn value_size(&self) -> nat {
        self.grower.size()
    }

    /// The name of the column, its type, and an array of the Arrow type to build.
    pub closed spec fn target(&self) -> (Seq<char>, DataType, ArrayData) {
        (self.name@, self.dtype, self.like)
    }

    /// The buffers hold the values, and the bitmap a flag for each; the validity is tracked wherever a
    /// source has a bitmap; and the array to build has buffers of the layout.
    pub closed spec fn wf(&self) -> bool {
        &&& type_fits(array_type(self.like), self.grower.layout())
        &&& self.grower.holds(self.len as nat)
        &&& self.len <= size_limit()
        &&& self.grower.size() <= size_limit()
        &&& forall|i: int|
            0 <= i < self.sources@.len() ==> (#[trigger] self.sources@[i]).wf(self.grower.layout())
        &&& match self.validity {
            Some(v) => validity_flags(v).len() == self.len,
            None => !any_nulls(self.sources()),
        }
    }

    /// Nothing has been appended, and what will be can come from the arrays.
    pub open spec fn is_new(
        &self,
        name: Seq<char>,
        dtype: DataType,
        arrays: Seq<ArrayData>,
        use_validity: bool,
        empty: ArrayData,
    ) -> bool {
        &&& self.wf()
        &&& Some(self.layout()) == layout_of(dtype)
        &&& self.values() == Seq::<Cell>::empty()
        &&& self.value_size() == 0
        &&& self.sources() == source_views(arrays)
        &&& self.flags() == if use_validity || any_nulls(source_views(arrays)) {
            Some(Seq::<bool>::empty())
        } else {
            None
        }
        &&& self.target() == (name, dtype, target_array(arrays, empty))
    }

    /// A growable over the given arrays, with nothing appended yet. The validity of the values is tracked
    /// if `use_validity` says so or if an array has a validity bitmap. The array that is built has the
    /// Arrow type of the first array; without arrays it has that of `empty`.
    pub fn new(
        name: &str,
        dtype: &DataType,
        arrays: &Vec<ArrayData>,
        use_validity: bool,
        capacity: usize,
        empty: &ArrayData,
    ) -> (r: Self)
        requires
            growable_over(*dtype, arrays@, capacity as nat, *empty),
        ensures
            r.is_new(name@, *dtype, arrays@, use_validity, *empty),
    {
        let grower = grower_from_dtype(dtype, capacity);
        let ghost layout = grower.layout();
        let ghost views = source_views(arrays@);
        let mut sources: Vec<SourceCache> = Vec::new();
        let mut needs_validity = use_validity;
        let mut i: usize = 0;
        while i < arrays.len()
            invariant
                i <= arrays.len(),
                views == source_views(arrays@),
                sources@.len() == i,
                forall|k: int|
                    0 <= k < arrays@.len() ==> array_bytes(#[trigger] arrays@[k]).len() >= 1,
                forall|k: int|
                    0 <= k < i ==> (#[trigger] sources@[k]).view() == views[k] && sources@[k].wf(
                        layout,
                    ),
                needs_validity == (use_validity || exists|k: int|
                    0 <= k < i && (#[trigger] views[k]).nulls is Some),
            decreases arrays.len() - i,
        {
            let source = cache_source(&arrays[i], Ghost(layout));
            assert(views[i as int] == source_view(arrays@[i as int]));
            if source.nulls.is_some() {
                needs_validity = true;
            }
            sources.push(source);
            i = i + 1;
        }
        let like = if arrays.len() > 0 {
            array_share(&arrays[0])
        } else {
            array_share(empty)
        };
        let validity = if needs_validity {
            Some(validity_new(capacity))
        } else {
            None
        };
        let r = ArrowGrowable {
            name: name.to_owned(),
            dtype: dtype.clone(),
            like,
            sources,
            grower,
            validity,
            len: 0,
        };
        proof {
            assert(r.sources() =~= views);
            assert(r.values() =~= Seq::empty());
        }
        r
    }

    /// A growable over the given arrays, as [`ArrowGrowable::new`] makes it, or nothing where the type
    /// cannot be grown from them.
    pub fn try_new(
        name: &str,
        dtype: &DataType,
        arrays: &Vec<ArrayData>,
        use_validity: bool,
        capacity: usize,
        empty: &ArrayData,
    ) -> (r: Option<Self>)
        ensures
            r is Some <==> growable_over(*dtype, arrays@, capacity as nat, *empty),
            r matches Some(g) ==> g.is_new(name@, *dtype, arrays@, use_validity, *empty),
    {
        let kind = match layout_kind(dtype) {
            Some(kind) => kind,
            None => {
                return None;
            },
        };
        if capacity > (isize::MAX as usize) / 4 {
            return None;
        }
        match kind {
            LayoutKind::Fixed(width) => {
                if !product_fits(capacity, width) {
                    return None;
                }
            },
            _ => {},
        }
        let target = if arrays.len() > 0 {
            array_type_of(&arrays[0])
        } else {
            array_type_of(empty)
        };
        if !kind.is_of(target) {
            return None;
        }
        let mut i: usize = 0;
        while i < arrays.len()
            invariant
                i <= arrays.len(),
                forall|k: int| 0 <= k < i ==> array_bytes(#[trigger] arrays@[k]).len() >= 1,
            decreases arrays.len() - i,
        {
            let bufs = array_buffers(&arrays[i]);
            assert(list_bytes(bufs@).len() == bufs@.len());
            if bufs.len() == 0 {
                assert(array_bytes(arrays@[i as int]).len() == 0);
                return None;
            }
            i = i + 1;
        }
        Some(Self::new(name, dtype, arrays, use_validity, capacity, empty))
    }

    /// The range of the source can be appended: it lies in the source, and the buffers can hold it.
    pub open spec fn can_take(&self, index: int, start: int, len: nat) -> bool {
        &&& 0 <= index < self.sources().len()
        &&& self.sources()[index].readable(self.layout(), start, len)
        &&& self.values().len() + len <= size_limit()
        &&& self.value_size() + self.sources()[index].value_size(self.layout(), start, len)
            <= size_limit()
    }

    /// The growable is `old_self` with a range of a source appended.
    pub open spec fn took(&self, old_self: &Self, index: int, start: int, len: nat) -> bool {
        let source = old_self.sources()[index];
        &&& self.wf()
        &&& self.layout() == old_self.layout()
        &&& self.sources() == old_self.sources()
        &&& self.target() == old_self.target()
        &&& self.values() == old_self.values() + source.cells(old_self.layout(), start, len)
        &&& self.value_size() == old_self.value_size() + source.value_size(
            old_self.layout(),
            start,
            len,
        )
        &&& self.flags() == match old_self.flags() {
            Some(flags) => Some(flags + source.flags(start, len)),
            None => None,
        }
    }

    /// Appends a range of a source.
    pub fn extend(&mut self, index: usize, start: usize, len: usize)
        requires
            old(self).wf(),
            old(self).can_take(index as int, start as int, len as nat),
        ensures
            final(self).took(old(self), index as int, start as int, len as nat),
    {
        let ghost src_view = self.sources()[index as int];
        let ghost layout = self.layout();
        let ghost n = self.len as nat;
        let ghost old_values = self.values();
        let ghost old_grower = self.grower;
        let src = &self.sources[index];
        assert(src_view == src.view());
        // A bitmap from an array starts at the array's first value.
        match &mut self.validity {
            Some(validity) => match &src.nulls {
                Some(nulls) => {
                    let range = null_slice(nulls, start, len);
                    validity_append(validity, &range);
                },
                None => validity_append_present(validity, len),
            },
            None => {},
        }
        // The buffers of an array start before its first value, by its offset.
        let base: usize = src.offset + start;
        match &mut self.grower {
            ValueGrower::FixedWidth { buffer, byte_width } => {
                let ghost before = mutable_bytes(*buffer);
                proof {
                    fixed_cells_append(
                        before,
                        src_view.bytes,
                        *byte_width as nat,
                        n,
                        base as nat,
                        len as nat,
                    );
                }
                extend_fixed(buffer, *byte_width, buffer_slice(&src.buf0), base, len);
            },
            ValueGrower::Boolean { builder } => {
                extend_bits(builder, buffer_slice(&src.buf0), base, len);
            },
            ValueGrower::VarLen { offsets, values } => {
                proof {
                    reveal(are_offsets);
                    range_size_is_value_size(src_view, start as int, len as nat);
                }
                match &src.buf1 {
                    Some(buf1) => {
                        extend_var_len(
                            offsets,
                            values,
                            &src.offsets,
                            buffer_slice(buf1),
                            base,
                            len,
                        );
                    },
                    None => vstd::pervasive::unreached(),
                }
            },
        }
        self.len = self.len + len;
        proof {
            let added = src_view.cells(layout, start as int, len as nat);
            assert forall|i: int| 0 <= i < n + len implies #[trigger] self.grower.cell(i) == (
            old_values + added)[i] by {
                let k = i - n;
                assert(base + i - n == src_view.start + (start + k));
                if i < n {
                    assert(old_values[i] == old_grower.cell(i));
                    match (self.grower, old_grower) {
                        (
                            ValueGrower::FixedWidth { buffer, byte_width },
                            ValueGrower::FixedWidth { buffer: before, byte_width: w },
                        ) => {
                            assert(fixed_cell(mutable_bytes(buffer), w as nat, i) == fixed_cell(
                                mutable_bytes(before),
                                w as nat,
                                i,
                            ));
                        },
                        (
                            ValueGrower::VarLen { offsets, values },
                            ValueGrower::VarLen { offsets: o, values: v },
                        ) => {
                            assert(between(mutable_bytes(values), offsets@, i) == between(
                                mutable_bytes(v),
                                o@,
                                i,
                            ));
                        },
                        _ => {},
                    }
                } else {
                    assert(added[k] == src_view.cell(layout, start + k));
                    match self.grower {
                        ValueGrower::FixedWidth { buffer, byte_width } => {
                            assert(fixed_cell(mutable_bytes(buffer), byte_width as nat, i)
                                == fixed_cell(
                                src_view.bytes,
                                byte_width as nat,
                                src_view.start + (start + k),
                            ));
                        },
                        ValueGrower::VarLen { offsets, values } => {
                            assert(between(mutable_bytes(values), offsets@, i) == between(
                                src_view.values->0,
                                src_view.offsets,
                                src_view.start + (start + k),
                            ));
                        },
                        _ => {},
                    }
                }
            }
            assert(self.values() =~= old_values + added);
        }
    }

    /// Whether the range of the source can be appended.
    fn takes(&self, index: usize, start: usize, len: usize) -> (r: bool)
        requires
            self.wf(),
        ensures
            r == self.can_take(index as int, start as int, len as nat),
    {
        if index >= self.sources.len() {
            return false;
        }
        let limit: usize = (isize::MAX as usize) / 4;
        if len > limit - self.len {
            return false;
        }
        let src = &self.sources[index];
        let ghost view = self.sources()[index as int];
        assert(view == src.view());
        let base: usize = match src.offset.checked_add(start) {
            Some(base) => base,
            None => {
                return false;
            },
        };
        let end: usize = match base.checked_add(len) {
            Some(end) => end,
            None => {
                return false;
            },
        };
        if end == usize::MAX {
            return false;
        }
        match &src.nulls {
            Some(nulls) => {
                let count: usize = null_len(nulls);
                if start > count || len > count - start {
                    return false;
                }
            },
            None => {},
        }
        let size: usize = buffer_slice(&src.buf0).len();
        assert(view.start + start == base && base + len == end);
        match &self.grower {
            ValueGrower::FixedWidth { buffer, byte_width } => {
                let lies = match end.checked_mul(*byte_width) {
                    Some(e) => e <= size,
                    None => false,
                };
                let has_room = match len.checked_mul(*byte_width) {
                    Some(added) => added <= limit - mutable_len(buffer),
                    None => false,
                };
                assert(lies == view.holds_range(self.layout(), start as int, len as nat));
                assert(has_room == (self.value_size() + view.value_size(
                    self.layout(),
                    start as int,
                    len as nat,
                ) <= size_limit()));
                lies && has_room
            },
            ValueGrower::Boolean { builder } => {
                let lies = end / 8 < size || (end / 8 == size && end % 8 == 0);
                assert(lies == view.holds_range(self.layout(), start as int, len as nat));
                lies
            },
            ValueGrower::VarLen { offsets, values } => {
                if size % 8 != 0 || size > limit {
                    return false;
                }
                proof {
                    range_size_is_value_size(view, start as int, len as nat);
                }
                match &src.buf1 {
                    Some(buf1) => {
                        let held: usize = buffer_slice(buf1).len();
                        proof {
                            assert(src.wf(self.layout()));
                            assert(src.offsets@ == view.offsets);
                            if self.can_take(index as int, start as int, len as nat) {
                                assert forall|i: int| base <= i < base + len implies #[trigger] value_lies(
                                    src.offsets@,
                                    held as nat,
                                    i,
                                ) by {
                                    assert(value_lies(view.offsets, view.values->0.len(), i));
                                }
                            }
                        }
                        values_lie(&src.offsets, held, base, len, limit - mutable_len(values))
                    },
                    None => false,
                }
            },
        }
    }

    /// Appends a range of a source where that can be done, and says whether it was; else nothing changes.
    pub fn try_extend(&mut self, index: usize, start: usize, len: usize) -> (r: bool)
        requires
            old(self).wf(),
        ensures
            r == old(self).can_take(index as int, start as int, len as nat),
            r ==> final(self).took(old(self), index as int, start as int, len as nat),
            !r ==> *final(self) == *old(self),
    {
        if self.takes(index, start, len) {
            self.extend(index, start, len);
            true
        } else {
            false
        }
    }

    /// So many nulls can be appended: the buffers can hold them.
    pub open spec fn can_take_nulls(&self, additional: nat) -> bool {
        &&& self.values().len() + additional <= size_limit()
        &&& self.layout() matches Layout::Fixed(w) ==> self.value_size() + additional * w
            <= size_limit()
    }

    /// The growable is `old_self` with nulls appended.
    pub open spec fn took_nulls(&self, old_self: &Self, additional: nat) -> bool {
        &&& self.wf()
        &&& self.layout() == old_self.layout()
        &&& self.sources() == old_self.sources()
        &&& self.target() == old_self.target()
        &&& self.values() == old_self.values() + Seq::new(
            additional,
            |k: int| filler(old_self.layout()),
        )
        &&& self.value_size() == old_self.value_size() + match old_self.layout() {
            Layout::Fixed(w) => (additional * w) as int,
            _ => 0,
        }
        &&& self.flags() == match old_self.flags() {
            Some(flags) => Some(flags + Seq::new(additional, |k: int| false)),
            None => None,
        }
    }

    /// Appends nulls. Where the validity is not tracked, the values that stand in their place are appended
    /// as if they were present.
    pub fn add_nulls(&mut self, additional: usize)
        requires
            old(self).wf(),
            old(self).can_take_nulls(additional as nat),
        ensures
            final(self).took_nulls(old(self), additional as nat),
    {
        let ghost layout = self.layout();
        let ghost n = self.len as nat;
        let ghost old_values = self.values();
        let ghost old_grower = self.grower;
        match &mut self.validity {
            Some(validity) => validity_append_absent(validity, additional),
            None => {},
        }
        match &mut self.grower {
            ValueGrower::FixedWidth { buffer, byte_width } => {
                let ghost before = mutable_bytes(*buffer);
                let ghost w = *byte_width as nat;
                let ghost zeros = Seq::new((additional * w) as nat, |i: int| 0u8);
                let size: usize = mutable_len(buffer);
                proof {
                    assert(additional * w >= 0) by (nonlinear_arith)
                        requires
                            w >= 0,
                    ;
                    assert(0 * w == 0);
                    assert((0 + additional) * w == additional * w);
                    fixed_cells_append(before, zeros, w, n, 0, additional as nat);
                    assert(zeros.subrange(0, additional * w) =~= zeros);
                }
                mutable_resize(buffer, size + additional * *byte_width, 0);
                assert(mutable_bytes(*buffer) =~= before + zeros);
                assert forall|i: int| 0 <= i < additional implies #[trigger] fixed_cell(zeros, w, i)
                    == filler(layout) by {
                    assert(0 <= i * w && (i + 1) * w <= additional * w && (i + 1) * w - i * w == w)
                        by (nonlinear_arith)
                        requires
                            0 <= i < additional,
                            w >= 0,
                    ;
                    assert(zeros.subrange(i * w, (i + 1) * w) =~= Seq::new(w, |i: int| 0u8));
                }
            },
            ValueGrower::Boolean { builder } => {
                bitmap_append_n(builder, additional, false);
            },
            ValueGrower::VarLen { offsets, values } => {
                add_empty_values(offsets, additional, Ghost(mutable_bytes(*values)));
            },
        }
        self.len = self.len + additional;
        proof {
            let added = Seq::new(additional as nat, |k: int| filler(layout));
            assert forall|i: int| 0 <= i < n + additional implies #[trigger] self.grower.cell(i)
                == (old_values + added)[i] by {
                let k = i - n;
                if i < n {
                    assert(old_values[i] == old_grower.cell(i));
                    match (self.grower, old_grower) {
                        (
                            ValueGrower::FixedWidth { buffer, byte_width },
                            ValueGrower::FixedWidth { buffer: before, byte_width: w },
                        ) => {
                            assert(fixed_cell(mutable_bytes(buffer), w as nat, i) == fixed_cell(
                                mutable_bytes(before),
                                w as nat,
                                i,
                            ));
                        },
                        (
                            ValueGrower::VarLen { offsets, values },
                            ValueGrower::VarLen { offsets: o, values: v },
                        ) => {
                            assert(between(mutable_bytes(values), offsets@, i) == between(
                                mutable_bytes(v),
                                o@,
                                i,
                            ));
                        },
                        _ => {},
                    }
                } else {
                    assert(added[k] == filler(layout));
                    match self.grower {
                        ValueGrower::FixedWidth { buffer, byte_width } => {
                            let w = byte_width as nat;
                            let zeros = Seq::new((additional * w) as nat, |i: int| 0u8);
                            assert(fixed_cell(mutable_bytes(buffer), w, i) == fixed_cell(
                                zeros,
                                w,
                                0 + i - n,
                            ));
                            assert(fixed_cell(zeros, w, k) == filler(layout));
                        },
                        ValueGrower::VarLen { offsets, values } => {
                            assert(between(mutable_bytes(values), offsets@, i) == filler(layout));
                        },
                        _ => {},
                    }
                }
            }
            assert(self.values() =~= old_values + added);
        }
    }

    /// Appends nulls where that can be done, and says whether it was; else nothing changes.
    pub fn try_add_nulls(&mut self, additional: usize) -> (r: bool)
        requires
            old(self).wf(),
        ensures
            r == old(self).can_take_nulls(additional as nat),
            r ==> final(self).took_nulls(old(self), additional as nat),
            !r ==> *final(self) == *old(self),
    {
        let limit: usize = (isize::MAX as usize) / 4;
        if additional > limit - self.len {
            return false;
        }
        let has_room = match &self.grower {
            ValueGrower::FixedWidth { buffer, byte_width } => match additional.checked_mul(
                *byte_width,
            ) {
                Some(added) => added <= limit - mutable_len(buffer),
                None => false,
            },
            _ => true,
        };
        if !has_room {
            return false;
        }
        self.add_nulls(additional);
        true
    }

    /// The number of values appended so far.
    pub fn len(&self) -> (r: usize)
        ensures
            r == self.values().len(),
    {
        self.len
    }

    /// Takes the buffers out, and leaves the growable empty.
    fn finish(&mut self) -> (r: Vec<Buffer>)
        requires
            old(self).grower.holds(old(self).len as nat),
            old(self).grower.size() <= size_limit(),
            old(self).len <= size_limit(),
        ensures
            final(self).grower.layout() == old(self).grower.layout(),
            final(self).grower.holds(0),
            final(self).grower.size() == 0,
            final(self).len == old(self).len,
            final(self).validity == old(self).validity,
            final(self).sources == old(self).sources,
            final(self).target() == old(self).target(),
            r@.len() >= 1,
            ({
                let built = SourceView {
                    start: 0,
                    nulls: None,
                    bytes: buffer_bytes(r@[0]),
                    offsets: buffer_offsets(r@[0]),
                    values: if r@.len() > 1 {
                        Some(buffer_bytes(r@[1]))
                    } else {
                        None
                    },
                };
                &&& built.holds_range(old(self).layout(), 0, old(self).len as nat)
                &&& built.cells(old(self).layout(), 0, old(self).len as nat) == old(self).values()
            }),
            old(self).grower.frozen(old(self).len as nat, r@),
    {
        let ghost n = self.len as nat;
        let ghost layout = self.layout();
        let ghost old_values = self.values();
        let mut buffers: Vec<Buffer> = Vec::new();
        match &mut self.grower {
            ValueGrower::FixedWidth { buffer, byte_width } => {
                let mut taken = mutable_new(0);
                std::mem::swap(&mut taken, buffer);
                assert(0 * *byte_width == 0);
                buffers.push(mutable_freeze(taken));
            },
            ValueGrower::Boolean { builder } => {
                buffers.push(bitmap_finish(builder));
            },
            ValueGrower::VarLen { offsets, values } => {
                let mut taken_offsets: Vec<i64> = Vec::new();
                taken_offsets.push(0);
                let mut taken = mutable_new(0);
                proof {
                    reveal(are_offsets);
                }
                std::mem::swap(&mut taken_offsets, offsets);
                std::mem::swap(&mut taken, values);
                buffers.push(offsets_freeze(taken_offsets));
                buffers.push(mutable_freeze(taken));
            },
        }
        proof {
            let built = SourceView {
                start: 0,
                nulls: None,
                bytes: buffer_bytes(buffers@[0]),
                offsets: buffer_offsets(buffers@[0]),
                values: if buffers@.len() > 1 {
                    Some(buffer_bytes(buffers@[1]))
                } else {
                    None
                },
            };
            reveal(are_offsets);
            assert(built.holds_range(layout, 0, n));
            assert forall|k: int| 0 <= k < n implies #[trigger] built.cell(layout, 0 + k)
                == old_values[k] by {}
            assert(built.cells(layout, 0, n) =~= old_values);
        }
        buffers
    }

    /// Builds an array of the values appended so far, and starts anew. It fails only where the array is one
    /// of text and a value is not UTF-8; Arrow's error is then passed on.
    pub fn build(&mut self) -> (r: Result<Series, DaftError>)
        requires
            old(self).wf(),
        ensures
            final(self).wf(),
            final(self).layout() == old(self).layout(),
            final(self).sources() == old(self).sources(),
            final(self).target() == old(self).target(),
            final(self).values() == Seq::<Cell>::empty(),
            final(self).value_size() == 0,
            final(self).flags() == match old(self).flags() {
                Some(_) => Some(Seq::<bool>::empty()),
                None => None,
            },
            r is Ok <==> values_fit(array_type(old(self).target().2), old(self).values()),
            match r {
                Ok(series) => {
                    &&& series.field.name@ == old(self).target().0
                    &&& series.field.dtype == old(self).target().1
                    &&& same_array_type(series.data, old(self).target().2)
                    &&& array_holds(
                        series.data,
                        old(self).layout(),
                        old(self).values(),
                        old(self).flags(),
                    )
                },
                Err(e) => e is External,
            },
    {
        let ghost values = self.values();
        let ghost layout = self.layout();
        let ghost old_grower = self.grower;
        let buffers = self.finish();
        let ghost buffer_list = buffers@;
        let ghost taken = SourceView {
            start: 0,
            nulls: None,
            bytes: buffer_bytes(buffer_list[0]),
            offsets: buffer_offsets(buffer_list[0]),
            values: if buffer_list.len() > 1 {
                Some(buffer_bytes(buffer_list[1]))
            } else {
                None
            },
        };
        assert(taken.holds_range(layout, 0, values.len()));
        assert(taken.cells(layout, 0, values.len()) == values);
        let null_buffer = match &mut self.validity {
            Some(validity) => validity_finish(validity),
            None => None,
        };
        proof {
            frozen_fits(
                array_type(self.like),
                old_grower,
                self.len as nat,
                buffer_list,
            );
        }
        let built = array_build(&self.like, self.len, null_buffer, buffers);
        self.len = 0;
        assert(self.values() =~= Seq::empty());
        proof {
            if built is Ok {
                let data = built->Ok_0;
                let view = source_view(data);
                let plain = SourceView { nulls: None, ..view };
                assert(array_bytes(data).len() == buffer_list.len());
                assert(array_bytes(data)[0] == buffer_bytes(buffer_list[0]));
                assert(array_offsets(data)[0] == buffer_offsets(buffer_list[0]));
                assert(plain =~= taken);
                bitmap_is_apart(view, layout, values.len());
            }
        }
        series_from(self.name.as_str(), &self.dtype, built)
    }
}

/// Arrow accepts the buffers of a growable exactly where its values fit the type.
proof fn frozen_fits(t: ArrayType, grower: ValueGrower, len: nat, buffers: Seq<Buffer>)
    requires
        type_fits(t, grower.layout()),
        grower.holds(len),
        grower.frozen(len, buffers),
    ensures
        buffers_fit(t, len, list_bytes(buffers), list_offsets(buffers)) <==> values_fit(
            t,
            grower.cells(len),
        ),
{
    let bytes = list_bytes(buffers);
    let offset_lists = list_offsets(buffers);
    assert(bytes.len() == buffers.len());
    assert(bytes[0] == buffer_bytes(buffers[0]));
    assert(offset_lists[0] == buffer_offsets(buffers[0]));
    match grower {
        ValueGrower::VarLen { offsets, values } => {
            reveal(are_offsets);
            let all = mutable_bytes(values);
            assert(bytes[1] == all);
            assert(offsets_fit(offsets@, len, all.len()));
            text_is_each_value(all, offsets@, len);
            let cells = grower.cells(len);
            assert forall|i: int| 0 <= i < len implies is_text(#[trigger] cells[i]) == valid_utf8(
                all.subrange(offsets@[i] as int, offsets@[i + 1] as int),
            ) by {}
            if values_fit(t, cells) && t is LargeText {
                assert forall|i: int| 0 <= i < len implies valid_utf8(
                    all.subrange(#[trigger] offsets@[i] as int, offsets@[i + 1] as int),
                ) by {
                    assert(is_text(cells[i]));
                }
            }
        },
        _ => {},
    }
}

/// The values of a source do not depend on its bitmap.
proof fn bitmap_is_apart(view: SourceView, layout: Layout, n: nat)
    ensures
        (SourceView { nulls: None, ..view }).holds_range(layout, 0, n) ==> view.holds_range(
            layout,
            0,
            n,
        ),
        view.cells(layout, 0, n) == (SourceView { nulls: None, ..view }).cells(layout, 0, n),
{
    let plain = SourceView { nulls: None, ..view };
    assert forall|k: int| 0 <= k < n implies #[trigger] view.cell(layout, 0 + k) == plain.cell(
        layout,
        0 + k,
    ) by {}
    assert(view.cells(layout, 0, n) =~= plain.cells(layout, 0, n));
}

/// Repeats the last offset, once for each empty value.
fn add_empty_values(offsets: &mut Vec<i64>, additional: usize, Ghost(values): Ghost<Seq<u8>>)
    requires
        are_offsets(old(offsets)@, values.len()),
        old(offsets)@.len() >= 1,
    ensures
        are_offsets(final(offsets)@, values.len()),
        final(offsets)@.len() == old(offsets)@.len() + additional,
        forall|i: int|
            0 <= i < old(offsets)@.len() - 1 ==> #[trigger] between(values, final(offsets)@, i)
                == between(values, old(offsets)@, i),
        forall|i: int|
            old(offsets)@.len() - 1 <= i < final(offsets)@.len() - 1 ==> #[trigger] between(
                values,
                final(offsets)@,
                i,
            ) == Cell::Bytes(Seq::<u8>::empty()),
{
    let ghost offsets0 = offsets@;
    let last: i64 = offsets[offsets.len() - 1];
    let mut i: usize = 0;
    while i < additional
        invariant
            i <= additional,
            are_offsets(offsets@, values.len()),
            are_offsets(offsets0, values.len()),
            offsets0.len() >= 1,
            last == offsets0.last(),
            offsets@ == offsets0 + Seq::new(i as nat, |k: int| last),
        decreases additional - i,
    {
        proof {
            reveal(are_offsets);
            assert(values + Seq::<u8>::empty() =~= values);
            between_append(values, offsets@, Seq::empty(), last);
        }
        offsets.push(last);
        i = i + 1;
        assert(offsets@ =~= offsets0 + Seq::new(i as nat, |k: int| last));
    }
    proof {
        reveal(are_offsets);
        assert forall|k: int| offsets0.len() - 1 <= k < offsets@.len() - 1 implies #[trigger] between(
            values,
            offsets@,
            k,
        ) == Cell::Bytes(Seq::<u8>::empty()) by {
            assert(offsets@[k] == last && offsets@[k + 1] == last);
            assert(values.subrange(last as int, last as int) =~= Seq::empty());
        }
    }
}

proof fn range_size_is_value_size(src: SourceView, start: int, len: nat)
    ensures
        range_size(src.offsets, src.start + start, len) == src.value_size(
            Layout::VarLen,
            start,
            len,
        ),
    decreases len,
{
    if len > 0 {
        range_size_is_value_size(src, start, (len - 1) as nat);
    }
}

/// The rows that values stand for: a value that is not present is a null.
pub open spec fn rows_of(values: Seq<Cell>, flags: Option<Seq<bool>>) -> Seq<Option<Cell>> {
    Seq::new(
        values.len(),
        |k: int|
            if flags matches Some(present) && !present[k] {
                None
            } else {
                Some(values[k])
            },
    )
}

/// The rows of an array.
pub open spec fn array_rows(a: ArrayData, layout: Layout) -> Seq<Option<Cell>> {
    rows_of(source_view(a).cells(layout, 0, array_len(a)), array_nulls(a))
}

/// The rows of a range of a source.
pub open spec fn source_rows(
    source: SourceView,
    layout: Layout,
    start: int,
    len: nat,
) -> Seq<Option<Cell>> {
    rows_of(source.cells(layout, start, len), Some(source.flags(start, len)))
}

/// An array that is built has the rows that were appended.
pub proof fn built_rows_are_the_appended_rows(
    a: ArrayData,
    layout: Layout,
    values: Seq<Cell>,
    flags: Option<Seq<bool>>,
)
    requires
        array_holds(a, layout, values, flags),
        flags matches Some(present) ==> present.len() == values.len(),
    ensures
        array_rows(a, layout) == rows_of(values, flags),
        array_rows(a, layout).len() == values.len(),
{
    assert(array_rows(a, layout) =~= rows_of(values, flags));
}

/// Appending a range of a source appends its rows, nulls included, and keeps those that were there,
/// whether the validity is tracked or not: where it is not, no source has a null.
pub proof fn extending_appends_the_rows_of_the_range(
    before: ArrowGrowable,
    after: ArrowGrowable,
    index: int,
    start: int,
    len: nat,
)
    requires
        before.wf(),
        before.can_take(index, start, len),
        after.took(&before, index, start, len),
    ensures
        rows_of(after.values(), after.flags()) == rows_of(before.values(), before.flags())
            + source_rows(before.sources()[index], before.layout(), start, len),
{
    let source = before.sources()[index];
    if before.flags() is None {
        assert(source.nulls is None);
    }
    assert(rows_of(after.values(), after.flags()) =~= rows_of(before.values(), before.flags())
        + source_rows(source, before.layout(), start, len));
}

/// Appending nulls appends as many null rows and keeps those that were there. Where the validity is not
/// tracked, it appends rows with the value that stands in the place of a null.
pub proof fn adding_nulls_appends_null_rows(
    before: ArrowGrowable,
    after: ArrowGrowable,
    additional: nat,
)
    requires
        before.wf(),
        after.took_nulls(&before, additional),
    ensures
        rows_of(after.values(), after.flags()) == rows_of(before.values(), before.flags())
            + null_rows(before, additional),
{
    assert(rows_of(after.values(), after.flags()) =~= rows_of(before.values(), before.flags())
        + null_rows(before, additional));
}

/// The rows that a growable appends for nulls.
pub open spec fn null_rows(growable: ArrowGrowable, additional: nat) -> Seq<Option<Cell>> {
    Seq::new(
        additional,
        |k: int|
            if growable.flags() is Some {
                None
            } else {
                Some(filler(growable.layout()))
            },
    )
}

/// An array that is built after a range of an array was appended has the rows of the range behind those
/// that it would have had before.
pub proof fn built_arrays_end_in_the_range(
    source: ArrayData,
    first: ArrayData,
    second: ArrayData,
    before: ArrowGrowable,
    after: ArrowGrowable,
    index: int,
    start: int,
    len: nat,
)
    requires
        before.wf(),
        before.can_take(index, start, len),
        after.took(&before, index, start, len),
        before.sources()[index] == source_view(source),
        0 <= start <= start + len <= array_len(source),
        array_holds(first, before.layout(), before.values(), before.flags()),
        array_holds(second, after.layout(), after.values(), after.flags()),
    ensures
        array_rows(second, after.layout()) == array_rows(first, before.layout()) + array_rows(
            source,
            before.layout(),
        ).subrange(start, start + len),
{
    let layout = before.layout();
    extending_appends_the_rows_of_the_range(before, after, index, start, len);
    built_rows_are_the_appended_rows(first, layout, before.values(), before.flags());
    built_rows_are_the_appended_rows(second, layout, after.values(), after.flags());
    assert(source_rows(source_view(source), layout, start, len) =~= array_rows(
        source,
        layout,
    ).subrange(start, start + len));
}

/// An array that is built after nulls were appended has the rows of the nulls behind those that it would
/// have had before.
pub proof fn built_arrays_end_in_the_nulls(
    first: ArrayData,
    second: ArrayData,
    before: ArrowGrowable,
    after: ArrowGrowable,
    additional: nat,
)
    requires
        before.wf(),
        after.took_nulls(&before, additional),
        array_holds(first, before.layout(), before.values(), before.flags()),
        array_holds(second, after.layout(), after.values(), after.flags()),
    ensures
        array_rows(second, after.layout()) == array_rows(first, before.layout()) + null_rows(
            before,
            additional,
        ),
{
    adding_nulls_appends_null_rows(before, after, additional);
    built_rows_are_the_appended_rows(first, before.layout(), before.values(), before.flags());
    built_rows_are_the_appended_rows(second, before.layout(), after.values(), after.flags());
}

/// Every range of an array that was built can be read again, while its positions can be counted.
pub proof fn ranges_of_built_arrays_are_readable(
    a: ArrayData,
    layout: Layout,
    values: Seq<Cell>,
    flags: Option<Seq<bool>>,
    start: int,
    len: nat,
)
    requires
        array_holds(a, layout, values, flags),
        flags matches Some(present) ==> present.len() == values.len(),
        0 <= start <= start + len <= values.len() < usize::MAX,
        layout is VarLen ==> array_bytes(a)[0].len() <= size_limit(),
    ensures
        source_view(a).readable(layout, start, len),
{
    let n = values.len();
    match layout {
        Layout::Fixed(w) => {
            assert((start + len) * w <= n * w) by (nonlinear_arith)
                requires
                    start + len <= n,
                    w >= 0,
            ;
        },
        _ => {},
    }
}

/// Text stays text: appending a range of text values, or nulls, to text values gives text values, so that
/// an array of them can be built.
pub proof fn grown_text_stays_text(values: Seq<Cell>, added: Seq<Cell>, additional: nat)
    requires
        values_fit(ArrayType::LargeText, values),
        values_fit(ArrayType::LargeText, added),
    ensures
        values_fit(ArrayType::LargeText, values + added),
        values_fit(
            ArrayType::LargeText,
            values + Seq::new(additional, |k: int| filler(Layout::VarLen)),
        ),
{
    assert forall|i: int| 0 <= i < (values + added).len() implies is_text(
        #[trigger] (values + added)[i],
    ) by {
        if i < values.len() {
            assert(is_text(values[i]));
        } else {
            assert(is_text(added[i - values.len()]));
        }
    }
    let nulls = Seq::new(additional, |k: int| filler(Layout::VarLen));
    assert forall|i: int| 0 <= i < (values + nulls).len() implies is_text(
        #[trigger] (values + nulls)[i],
    ) by {
        if i < values.len() {
            assert(is_text(values[i]));
        }
    }
}

/// A column of nulls.
#[derive(Debug)]
pub struct NullArray {
    pub name: String,
    pub dtype: DataType,
    pub len: usize,
}

/// A growable for columns in which every value is null: only their number is kept.
#[derive(Debug)]
pub struct ArrowNullGrowable {
    name: String,
    dtype: DataType,
    len: usize,
}

impl ArrowNullGrowable {
    /// The name and the type of the column.
    pub closed spec fn target(&self) -> (Seq<char>, DataType) {
        (self.name@, self.dtype)
    }

    /// The number of nulls appended so far.
    pub closed spec fn count(&self) -> nat {
        self.len as nat
    }

    /// A growable with nothing appended yet.
    pub fn new(name: &str, dtype: &DataType) -> (r: Self)
        ensures
            r.target() == (name@, *dtype),
            r.count() == 0,
    {
        ArrowNullGrowable { name: name.to_owned(), dtype: dtype.clone(), len: 0 }
    }

    /// Appends a range of a source, whose values are null whatever the source.
    pub fn extend(&mut self, index: usize, start: usize, len: usize)
        requires
            old(self).count() + len <= usize::MAX,
        ensures
            final(self).target() == old(self).target(),
            final(self).count() == old(self).count() + len,
    {
        self.len = self.len + len;
    }

    /// Appends nulls.
    pub fn add_nulls(&mut self, additional: usize)
        requires
            old(self).count() + additional <= usize::MAX,
        ensures
            final(self).target() == old(self).target(),
            final(self).count() == old(self).count() + additional,
    {
        self.len = self.len + additional;
    }

    /// Builds a column of the nulls appended so far, and starts anew.
    pub fn build(&mut self) -> (r: NullArray)
        ensures
            (r.name@, r.dtype) == old(self).target(),
            r.len == old(self).count(),
            final(self).target() == old(self).target(),
            final(self).count() == 0,
    {
        let len: usize = self.len;
        self.len = 0;
        NullArray { name: self.name.clone(), dtype: self.dtype.clone(), len }
    }

    /// The number of nulls appended so far.
    pub fn len(&self) -> (r: usize)
        ensures
            r == self.count(),
    {
        self.len
    }
}

} // verus!
