//! Arrow's buffers and builders, with what is relied on of them.
//!
//! A buffer holds bytes. Arrow also reads a buffer as 64-bit offsets, in the byte order of the machine;
//! the two readings are kept apart here. A bitmap holds one boolean per bit, the lowest bit first.
use arrow::array::{ArrayData, BooleanBufferBuilder, NullBufferBuilder};
use arrow::buffer::{Buffer, MutableBuffer, NullBuffer, ScalarBuffer};
use arrow::error::ArrowError;
use vstd::prelude::*;
use vstd::utf8::{is_char_boundary, valid_utf8};

verus! {

/// An immutable, shared buffer.
#[verifier::external_type_specification]
#[verifier::external_body]
pub struct ExBuffer(Buffer);

/// A growing buffer.
#[verifier::external_type_specification]
#[verifier::external_body]
pub struct ExMutableBuffer(MutableBuffer);

/// A validity bitmap.
#[verifier::external_type_specification]
#[verifier::external_body]
pub struct ExNullBuffer(NullBuffer);

/// A growing bitmap.
#[verifier::external_type_specification]
#[verifier::external_body]
pub struct ExBooleanBufferBuilder(BooleanBufferBuilder);

/// A growing validity bitmap.
#[verifier::external_type_specification]
#[verifier::external_body]
pub struct ExNullBufferBuilder(NullBufferBuilder);

/// The buffers of an array.
#[verifier::external_type_specification]
#[verifier::external_body]
pub struct ExArrayData(ArrayData);

/// Why an array was refused.
#[verifier::external_type_specification]
#[verifier::external_body]
pub struct ExArrowError(ArrowError);

/// The bytes of a buffer.
pub uninterp spec fn buffer_bytes(b: Buffer) -> Seq<u8>;

/// The contents of a buffer, read as 64-bit offsets.
pub uninterp spec fn buffer_offsets(b: Buffer) -> Seq<i64>;

/// The bytes of a growing buffer.
pub uninterp spec fn mutable_bytes(b: MutableBuffer) -> Seq<u8>;

/// The flags of a validity bitmap: whether each value is present.
pub uninterp spec fn null_flags(b: NullBuffer) -> Seq<bool>;

/// The booleans of a growing bitmap.
pub uninterp spec fn bitmap_values(b: BooleanBufferBuilder) -> Seq<bool>;

/// The flags of a growing validity bitmap.
pub uninterp spec fn validity_flags(b: NullBufferBuilder) -> Seq<bool>;

/// The bytes of the buffers of an array.
pub uninterp spec fn array_bytes(a: ArrayData) -> Seq<Seq<u8>>;

/// The contents of the buffers of an array, read as 64-bit offsets.
pub uninterp spec fn array_offsets(a: ArrayData) -> Seq<Seq<i64>>;

/// The validity of an array, where it has a bitmap.
pub uninterp spec fn array_nulls(a: ArrayData) -> Option<Seq<bool>>;

/// The position in the buffers at which an array starts.
pub uninterp spec fn array_start(a: ArrayData) -> nat;

/// The number of values of an array.
pub uninterp spec fn array_len(a: ArrayData) -> nat;

/// Two arrays have the same type.
pub uninterp spec fn same_array_type(a: ArrayData, b: ArrayData) -> bool;

/// What kind of Arrow type an array has, as far as its buffers go by it.
#[derive(Debug, Clone, Copy, PartialEq, Eq, Structural)]
pub enum ArrayType {
    /// Values of this many bytes, which Arrow aligns.
    Primitive(usize),
    /// Strings of this many bytes.
    FixedBytes(i32),
    /// Booleans.
    Bits,
    /// Text of any length, behind 64-bit offsets.
    LargeText,
    /// Bytes of any length, behind 64-bit offsets.
    LargeBytes,
    /// Any other type.
    Other,
}

/// The type of an array.
pub uninterp spec fn array_type(a: ArrayData) -> ArrayType;

/// `ArrayData::data_type`, and `DataType::primitive_width` of it where it is no type of strings or
/// booleans: the type of an array.
#[verifier::external_body]
pub(crate) fn array_type_of(a: &ArrayData) -> (r: ArrayType)
    ensures
        r == array_type(*a),
{
    match a.data_type() {
        arrow::datatypes::DataType::Boolean => ArrayType::Bits,
        arrow::datatypes::DataType::LargeUtf8 => ArrayType::LargeText,
        arrow::datatypes::DataType::LargeBinary => ArrayType::LargeBytes,
        arrow::datatypes::DataType::FixedSizeBinary(width) => ArrayType::FixedBytes(*width),
        other => match other.primitive_width() {
            Some(width) => ArrayType::Primitive(width),
            None => ArrayType::Other,
        },
    }
}

/// The most bytes or bits that a growing buffer is asked to hold: growing may double what is allocated,
/// and the result must stay within the address space.
pub open spec fn size_limit() -> int {
    isize::MAX as int / 4
}

/// The bit at a position of a bitmap.
pub open spec fn bit_at(bytes: Seq<u8>, k: int) -> bool {
    (bytes[k / 8] >> ((k % 8) as u8)) & 1u8 == 1u8
}

/// `MutableBuffer::new` gives an empty buffer. (A capacity beyond the address space is out of bounds.)
#[verifier::external_body]
pub(crate) fn mutable_new(capacity: usize) -> (r: MutableBuffer)
    requires
        capacity <= size_limit(),
    ensures
        mutable_bytes(r) == Seq::<u8>::empty(),
{
    MutableBuffer::new(capacity)
}

/// `MutableBuffer::extend_from_slice` appends the bytes.
#[verifier::external_body]
pub(crate) fn mutable_extend(b: &mut MutableBuffer, bytes: &[u8])
    requires
        mutable_bytes(*old(b)).len() + bytes@.len() <= size_limit(),
    ensures
        mutable_bytes(*final(b)) == mutable_bytes(*old(b)) + bytes@,
{
    b.extend_from_slice(bytes)
}

/// `MutableBuffer::resize` to a greater length appends copies of the byte; to a smaller one it drops the
/// bytes beyond it.
#[verifier::external_body]
pub(crate) fn mutable_resize(b: &mut MutableBuffer, new_len: usize, value: u8)
    requires
        new_len <= size_limit(),
    ensures
        mutable_bytes(*final(b)) == if new_len <= mutable_bytes(*old(b)).len() {
            mutable_bytes(*old(b)).take(new_len as int)
        } else {
            mutable_bytes(*old(b)) + Seq::new(
                (new_len - mutable_bytes(*old(b)).len()) as nat,
                |i: int| value,
            )
        },
{
    b.resize(new_len, value)
}

/// `MutableBuffer::len` is the number of bytes.
#[verifier::external_body]
pub(crate) fn mutable_len(b: &MutableBuffer) -> (r: usize)
    ensures
        r == mutable_bytes(*b).len(),
{
    b.len()
}

/// `Buffer::from` of a growing buffer keeps its bytes.
#[verifier::external_body]
pub(crate) fn mutable_freeze(b: MutableBuffer) -> (r: Buffer)
    ensures
        buffer_bytes(r) == mutable_bytes(b),
{
    b.into()
}

/// `Buffer::as_slice` gives the bytes.
#[verifier::external_body]
pub(crate) fn buffer_slice(b: &Buffer) -> (r: &[u8])
    ensures
        r@ == buffer_bytes(*b),
{
    b.as_slice()
}

/// `Buffer::typed_data`, on an aligned copy of the buffer, reads its contents as 64-bit offsets, eight
/// bytes each. (The length must be a multiple of that.)
#[verifier::external_body]
pub(crate) fn buffer_read_offsets(b: &Buffer) -> (r: Vec<i64>)
    requires
        buffer_bytes(*b).len() % 8 == 0,
        buffer_bytes(*b).len() <= size_limit(),
    ensures
        r@ == buffer_offsets(*b),
        r@.len() * 8 == buffer_bytes(*b).len(),
{
    Buffer::from_slice_ref(b.as_slice()).typed_data::<i64>().to_vec()
}

/// `ScalarBuffer::from` and `ScalarBuffer::into_inner` make a buffer of the offsets.
#[verifier::external_body]
pub(crate) fn offsets_freeze(offsets: Vec<i64>) -> (r: Buffer)
    ensures
        buffer_offsets(r) == offsets@,
        buffer_bytes(r).len() == offsets@.len() * 8,
{
    ScalarBuffer::from(offsets).into_inner()
}

/// `BooleanBufferBuilder::new` gives an empty bitmap.
#[verifier::external_body]
pub(crate) fn bitmap_new(capacity: usize) -> (r: BooleanBufferBuilder)
    requires
        capacity <= size_limit(),
    ensures
        bitmap_values(r) == Seq::<bool>::empty(),
{
    BooleanBufferBuilder::new(capacity)
}

/// `BooleanBufferBuilder::append` appends one boolean.
#[verifier::external_body]
pub(crate) fn bitmap_append(b: &mut BooleanBufferBuilder, v: bool)
    requires
        bitmap_values(*old(b)).len() < size_limit(),
    ensures
        bitmap_values(*final(b)) == bitmap_values(*old(b)).push(v),
{
    b.append(v)
}

/// `BooleanBufferBuilder::append_n` appends copies of one boolean.
#[verifier::external_body]
pub(crate) fn bitmap_append_n(b: &mut BooleanBufferBuilder, additional: usize, v: bool)
    requires
        bitmap_values(*old(b)).len() + additional <= size_limit(),
    ensures
        bitmap_values(*final(b)) == bitmap_values(*old(b)) + Seq::new(additional as nat, |i: int| v),
{
    b.append_n(additional, v)
}

/// `BooleanBufferBuilder::finish` and `BooleanBuffer::into_inner` give the booleans as bits, the lowest
/// bit first, in as many bytes as they need, and leave an empty bitmap.
#[verifier::external_body]
pub(crate) fn bitmap_finish(b: &mut BooleanBufferBuilder) -> (r: Buffer)
    ensures
        bitmap_values(*final(b)) == Seq::<bool>::empty(),
        buffer_bytes(r).len() == (bitmap_values(*old(b)).len() + 7) / 8,
        forall|k: int|
            0 <= k < bitmap_values(*old(b)).len() ==> #[trigger] bit_at(buffer_bytes(r), k)
                == bitmap_values(*old(b))[k],
{
    b.finish().into_inner()
}

/// `NullBufferBuilder::new` gives an empty validity bitmap.
#[verifier::external_body]
pub(crate) fn validity_new(capacity: usize) -> (r: NullBufferBuilder)
    requires
        capacity <= size_limit(),
    ensures
        validity_flags(r) == Seq::<bool>::empty(),
{
    NullBufferBuilder::new(capacity)
}

/// `NullBufferBuilder::append_buffer` appends the flags of a validity bitmap.
#[verifier::external_body]
pub(crate) fn validity_append(b: &mut NullBufferBuilder, flags: &NullBuffer)
    requires
        validity_flags(*old(b)).len() + null_flags(*flags).len() <= size_limit(),
    ensures
        validity_flags(*final(b)) == validity_flags(*old(b)) + null_flags(*flags),
{
    b.append_buffer(flags)
}

/// `NullBufferBuilder::append_n_non_nulls` appends flags of present values.
#[verifier::external_body]
pub(crate) fn validity_append_present(b: &mut NullBufferBuilder, n: usize)
    requires
        validity_flags(*old(b)).len() + n <= size_limit(),
    ensures
        validity_flags(*final(b)) == validity_flags(*old(b)) + Seq::new(n as nat, |i: int| true),
{
    b.append_n_non_nulls(n)
}

/// `NullBufferBuilder::append_n_nulls` appends flags of absent values.
#[verifier::external_body]
pub(crate) fn validity_append_absent(b: &mut NullBufferBuilder, n: usize)
    requires
        validity_flags(*old(b)).len() + n <= size_limit(),
    ensures
        validity_flags(*final(b)) == validity_flags(*old(b)) + Seq::new(n as nat, |i: int| false),
{
    b.append_n_nulls(n)
}

/// `NullBufferBuilder::finish` gives the flags, or nothing, which it does only where every value is
/// present; and leaves an empty bitmap. Whether it gives a bitmap of present values only or nothing
/// depends on how they were appended, and is left open.
#[verifier::external_body]
pub(crate) fn validity_finish(b: &mut NullBufferBuilder) -> (r: Option<NullBuffer>)
    ensures
        validity_flags(*final(b)) == Seq::<bool>::empty(),
        match r {
            Some(flags) => null_flags(flags) == validity_flags(*old(b)),
            None => forall|i: int|
                0 <= i < validity_flags(*old(b)).len() ==> #[trigger] validity_flags(*old(b))[i],
        },
{
    b.finish()
}

/// `NullBuffer::len` is the number of flags.
#[verifier::external_body]
pub(crate) fn null_len(b: &NullBuffer) -> (r: usize)
    ensures
        r == null_flags(*b).len(),
{
    b.len()
}

/// `NullBuffer::slice` gives the flags of a range.
#[verifier::external_body]
pub(crate) fn null_slice(b: &NullBuffer, start: usize, len: usize) -> (r: NullBuffer)
    requires
        start + len <= null_flags(*b).len(),
    ensures
        null_flags(r) == null_flags(*b).subrange(start as int, start + len),
{
    b.slice(start, len)
}

/// `ArrayData::buffers`, shared.
#[verifier::external_body]
pub(crate) fn array_buffers(a: &ArrayData) -> (r: Vec<Buffer>)
    ensures
        list_bytes(r@) == array_bytes(*a),
        list_offsets(r@) == array_offsets(*a),
{
    a.buffers().to_vec()
}

/// `ArrayData::nulls`, shared: the flags of the array's own values.
#[verifier::external_body]
pub(crate) fn array_validity(a: &ArrayData) -> (r: Option<NullBuffer>)
    ensures
        match r {
            Some(flags) => array_nulls(*a) == Some(null_flags(flags)),
            None => array_nulls(*a) is None,
        },
{
    a.nulls().cloned()
}

/// `ArrayData::offset` is where the array starts in its buffers.
#[verifier::external_body]
pub(crate) fn array_offset(a: &ArrayData) -> (r: usize)
    ensures
        r == array_start(*a),
{
    a.offset()
}

/// `ArrayData::clone` shares the buffers of an array.
#[verifier::external_body]
pub(crate) fn array_share(a: &ArrayData) -> (r: ArrayData)
    ensures
        r == *a,
{
    a.clone()
}

/// The bytes of a list of buffers.
pub open spec fn list_bytes(v: Seq<Buffer>) -> Seq<Seq<u8>> {
    v.map_values(|b: Buffer| buffer_bytes(b))
}

/// The contents of a list of buffers, read as 64-bit offsets.
pub open spec fn list_offsets(v: Seq<Buffer>) -> Seq<Seq<i64>> {
    v.map_values(|b: Buffer| buffer_offsets(b))
}

/// No value is absent.
pub open spec fn all_present(flags: Seq<bool>) -> bool {
    forall|i: int| 0 <= i < flags.len() ==> #[trigger] flags[i]
}

/// The first `len + 1` offsets never decrease, and bound values in that many bytes.
pub open spec fn offsets_fit(offsets: Seq<i64>, len: nat, size: nat) -> bool {
    &&& len < offsets.len()
    &&& forall|i: int| 0 <= i <= len ==> 0 <= #[trigger] offsets[i] <= size
    &&& forall|i: int, j: int| 0 <= i <= j <= len ==> offsets[i] <= offsets[j]
}

/// The values between the offsets are text: where the bytes as a whole are UTF-8, no offset lies within a
/// character; else each value by itself is UTF-8.
pub open spec fn text_fits(bytes: Seq<u8>, offsets: Seq<i64>, len: nat) -> bool {
    if valid_utf8(bytes) {
        forall|i: int|
            0 <= i < len ==> is_char_boundary(bytes, #[trigger] offsets[i] as int)
                && is_char_boundary(bytes, offsets[i + 1] as int)
    } else {
        forall|i: int|
            0 <= i < len ==> valid_utf8(
                bytes.subrange(#[trigger] offsets[i] as int, offsets[i + 1] as int),
            )
    }
}

/// The buffers hold `len` values of the type.
pub open spec fn buffers_fit(
    t: ArrayType,
    len: nat,
    bytes: Seq<Seq<u8>>,
    offsets: Seq<Seq<i64>>,
) -> bool {
    match t {
        ArrayType::Primitive(width) => bytes.len() == 1 && len * width <= bytes[0].len(),
        ArrayType::FixedBytes(width) => bytes.len() == 1 && len * width <= bytes[0].len(),
        ArrayType::Bits => bytes.len() == 1 && (len + 7) / 8 <= bytes[0].len(),
        ArrayType::LargeText => bytes.len() == 2 && ((len == 0 && bytes[0].len() == 0) || (
        offsets_fit(offsets[0], len, bytes[1].len()) && text_fits(bytes[1], offsets[0], len))),
        ArrayType::LargeBytes => bytes.len() == 2 && ((len == 0 && bytes[0].len() == 0)
            || offsets_fit(offsets[0], len, bytes[1].len())),
        ArrayType::Other => false,
    }
}

/// The flags that an array keeps: none where every value is present.
pub open spec fn kept_flags(nulls: Option<NullBuffer>) -> Option<Seq<bool>> {
    match nulls {
        Some(flags) => if all_present(null_flags(flags)) {
            None
        } else {
            Some(null_flags(flags))
        },
        None => None,
    }
}

/// The flags, if any, are those of `len` values.
pub open spec fn flags_fit(flags: Option<Seq<bool>>, len: nat) -> bool {
    flags matches Some(f) ==> f.len() == len
}

/// `ArrayDataBuilder::build`, which aligns the buffers, checks them against a type, here that of another
/// array, and puts an array together from them, without the validity bitmap if no value is absent. It
/// succeeds exactly where the buffers hold as many values of the type as asked for, and the bitmap that
/// is kept as many flags. (The type must be one of those told apart, with no negative width; and where
/// the first buffer holds offsets, its length must be a multiple of theirs.)
#[verifier::external_body]
pub(crate) fn array_build(
    like: &ArrayData,
    len: usize,
    nulls: Option<NullBuffer>,
    buffers: Vec<Buffer>,
) -> (r: Result<ArrayData, ArrowError>)
    requires
        array_type(*like) !is Other,
        array_type(*like) matches ArrayType::FixedBytes(width) ==> width >= 0,
        (array_type(*like) is LargeText || array_type(*like) is LargeBytes) && buffers@.len() >= 1
            ==> buffer_bytes(buffers@[0]).len() % 8 == 0,
    ensures
        r is Ok == (buffers_fit(
            array_type(*like),
            len as nat,
            list_bytes(buffers@),
            list_offsets(buffers@),
        ) && flags_fit(kept_flags(nulls), len as nat)),
        r matches Ok(a) ==> {
            &&& same_array_type(a, *like)
            &&& array_type(a) == array_type(*like)
            &&& array_len(a) == len
            &&& array_start(a) == 0
            &&& array_bytes(a) == list_bytes(buffers@)
            &&& array_offsets(a) == list_offsets(buffers@)
            &&& array_nulls(a) == kept_flags(nulls)
        },
{
    let builder = ArrayData::builder(like.data_type().clone()).len(len).nulls(nulls).buffers(buffers);
    builder.align_buffers(true).build()
}

/// The text that `ArrowError`'s `Display` gives. Nothing is said of it.
#[verifier::external_body]
pub(crate) fn arrow_error_message(e: &ArrowError) -> String {
    format!("{}", e)
}

} // verus!
