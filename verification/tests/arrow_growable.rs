use std::sync::Arc;

use arrow::array::{
    Array, ArrayData, BooleanArray, FixedSizeBinaryArray, Int32Array, LargeBinaryArray,
    LargeStringArray, NullArray, StringViewArray,
};
use daft_ext::arrow_growable::{ArrowGrowable, ArrowNullGrowable};
use daft_ext::schema::DataType;

fn empty_i32() -> ArrayData {
    Int32Array::from(Vec::<i32>::new()).to_data()
}

fn empty_utf8() -> ArrayData {
    LargeStringArray::from(Vec::<&str>::new()).to_data()
}

fn i32_values(data: ArrayData) -> Vec<Option<i32>> {
    Int32Array::from(data).iter().collect()
}

/// Verifies that extend with a non-zero start correctly offsets into the source buffer.
#[test]
fn test_extend_from_nonzero_start() {
    let src = Int32Array::from(vec![Some(10), Some(20), Some(30), Some(40), Some(50)]).to_data();
    let mut growable =
        ArrowGrowable::new("test", &DataType::Int32, &vec![src], false, 0, &empty_i32());
    // Take elements at indices 2..4 → [30, 40]
    growable.extend(0, 2, 2);
    let result = growable.build().unwrap();
    assert_eq!(result.data.len(), 2);
    let values = i32_values(result.data);
    assert_eq!(values[0], Some(30));
    assert_eq!(values[1], Some(40));
    assert_eq!(&*result.field.name, "test");
    assert_eq!(result.field.dtype, DataType::Int32);
}

#[test]
fn extend_multi_source_with_nulls_and_offset() {
    // src0 (no nulls), then slice it to offset=1 -> logical [20,30,40,50]
    let src0_full = Int32Array::from(vec![Some(10), Some(20), Some(30), Some(40), Some(50)]);
    let src0 = src0_full.to_data().slice(1, 4);
    assert_eq!(src0.offset(), 1);
    // src1 has a null
    let src1 = Int32Array::from(vec![Some(1), None, Some(3)]).to_data();

    let mut g = ArrowGrowable::new(
        "v",
        &DataType::Int32,
        &vec![src0, src1],
        false,
        0,
        &empty_i32(),
    );
    // from src0 (offset=1): take logical idx 1..3 -> [30,40]
    g.extend(0, 1, 2);
    // from src1: take 0..3 -> [1, null, 3]
    g.extend(1, 0, 3);
    // from src0: take logical idx 3 -> [50]
    g.extend(0, 3, 1);

    let out = g.build().unwrap();
    let got = i32_values(out.data);
    assert_eq!(
        got,
        vec![Some(30), Some(40), Some(1), None, Some(3), Some(50)]
    );
}

#[test]
fn extend_varlen_utf8_multi_source() {
    let a = LargeStringArray::from(vec![Some("a"), Some("bb"), Some("ccc")]).to_data();
    let b = LargeStringArray::from(vec![Some("dddd"), Some("e")]).to_data();
    let mut g = ArrowGrowable::new("s", &DataType::Utf8, &vec![a, b], false, 0, &empty_utf8());
    g.extend(0, 1, 2); // ["bb","ccc"]
    g.extend(1, 0, 1); // ["dddd"]
    g.extend(0, 0, 1); // ["a"]
    let out = g.build().unwrap();
    let arr = LargeStringArray::from(out.data);
    let got: Vec<Option<&str>> = arr.iter().collect();
    assert_eq!(got, vec![Some("bb"), Some("ccc"), Some("dddd"), Some("a")]);
}

#[test]
fn booleans_are_copied_bit_by_bit() {
    let bits: Vec<bool> = (0..20).map(|i| i % 3 == 0).collect();
    let src = BooleanArray::from(bits.clone()).to_data().slice(3, 15);
    let empty = BooleanArray::from(Vec::<bool>::new()).to_data();
    let mut g = ArrowGrowable::new("b", &DataType::Boolean, &vec![src], false, 8, &empty);
    g.extend(0, 2, 11);
    g.extend(0, 0, 1);
    assert_eq!(g.len(), 12);
    let out = BooleanArray::from(g.build().unwrap().data);
    let got: Vec<bool> = out.iter().map(|b| b.unwrap()).collect();
    let mut expected = bits[5..16].to_vec();
    expected.push(bits[3]);
    assert_eq!(got, expected);
}

#[test]
fn nulls_are_tracked_where_asked_for() {
    let src = Int32Array::from(vec![7, 8]).to_data();
    let mut g = ArrowGrowable::new("v", &DataType::Int32, &vec![src], true, 4, &empty_i32());
    g.extend(0, 1, 1);
    g.add_nulls(2);
    g.extend(0, 0, 1);
    let out = g.build().unwrap();
    assert_eq!(i32_values(out.data), vec![Some(8), None, None, Some(7)]);
}

#[test]
fn untracked_nulls_become_fillers() {
    let src = Int32Array::from(vec![7, 8]).to_data();
    let mut g = ArrowGrowable::new("v", &DataType::Int32, &vec![src], false, 0, &empty_i32());
    g.add_nulls(1);
    g.extend(0, 0, 2);
    let out = g.build().unwrap();
    assert_eq!(out.data.null_count(), 0);
    assert_eq!(i32_values(out.data), vec![Some(0), Some(7), Some(8)]);
}

#[test]
fn null_strings_are_empty_and_absent() {
    let a = LargeBinaryArray::from_opt_vec(vec![Some(&b"xy"[..]), None]).to_data();
    let empty = LargeBinaryArray::from_opt_vec(vec![]).to_data();
    let mut g = ArrowGrowable::new("s", &DataType::Binary, &vec![a], false, 0, &empty);
    g.add_nulls(1);
    g.extend(0, 0, 2);
    let arr = LargeBinaryArray::from(g.build().unwrap().data);
    let got: Vec<Option<&[u8]>> = arr.iter().collect();
    assert_eq!(got, vec![None, Some(&b"xy"[..]), None]);
}

#[test]
fn building_starts_anew() {
    let src = Int32Array::from(vec![1, 2, 3]).to_data();
    let mut g = ArrowGrowable::new("v", &DataType::Int32, &vec![src], true, 0, &empty_i32());
    g.extend(0, 0, 3);
    g.add_nulls(1);
    assert_eq!(g.build().unwrap().data.len(), 4);
    assert_eq!(g.len(), 0);
    g.extend(0, 2, 1);
    assert_eq!(i32_values(g.build().unwrap().data), vec![Some(3)]);
    assert_eq!(g.build().unwrap().data.len(), 0);
}

#[test]
fn without_sources_the_given_type_is_built() {
    let mut g = ArrowGrowable::new("s", &DataType::Utf8, &vec![], true, 0, &empty_utf8());
    g.add_nulls(2);
    let arr = LargeStringArray::from(g.build().unwrap().data);
    assert_eq!(arr.len(), 2);
    assert!(arr.is_null(0) && arr.is_null(1));
}

#[test]
fn fixed_size_binary_has_its_own_width() {
    let rows: Vec<Vec<u8>> = vec![vec![1, 2, 3], vec![4, 5, 6], vec![7, 8, 9]];
    let src = FixedSizeBinaryArray::try_from_iter(rows.iter()).unwrap().to_data();
    let like = src.slice(0, 0);
    let mut g = ArrowGrowable::new("f", &DataType::FixedSizeBinary(3), &vec![src], false, 1, &like);
    g.extend(0, 1, 2);
    let arr = FixedSizeBinaryArray::from(g.build().unwrap().data);
    assert_eq!(arr.value(0), &[4, 5, 6]);
    assert_eq!(arr.value(1), &[7, 8, 9]);
}

#[test]
fn extensions_are_laid_out_as_their_storage() {
    let src = Int32Array::from(vec![5, 6]).to_data();
    let dtype = DataType::Extension(Arc::from("wkb"), Arc::new(DataType::Date), None);
    let mut g = ArrowGrowable::new("e", &dtype, &vec![src], false, 0, &empty_i32());
    g.extend(0, 0, 2);
    let out = g.build().unwrap();
    assert_eq!(out.field.dtype, dtype);
    assert_eq!(i32_values(out.data), vec![Some(5), Some(6)]);
}

#[test]
fn arrays_that_do_not_fit_are_refused() {
    // The values would be laid out for 32-bit integers, but the array to build is one of strings.
    let none = vec![];
    let misfit = ArrowGrowable::try_new("v", &DataType::Int32, &none, false, 0, &empty_utf8());
    assert!(misfit.is_none());
    let text = ArrowGrowable::try_new("v", &DataType::Utf8, &none, false, 0, &empty_utf8());
    assert!(text.is_some());
    let views = StringViewArray::from(vec!["a"]).to_data();
    let wide = DataType::FixedSizeBinary(16);
    assert!(ArrowGrowable::try_new("v", &wide, &none, false, 0, &views).is_none());
    let binary = FixedSizeBinaryArray::try_from_iter([[0u8; 16]].iter()).unwrap().to_data();
    assert!(ArrowGrowable::try_new("v", &wide, &none, false, 0, &binary).is_some());
    // No layout, no buffers, too large.
    assert!(ArrowGrowable::try_new("v", &DataType::Null, &none, false, 0, &empty_i32()).is_none());
    let bufferless = vec![empty_i32(), NullArray::new(3).to_data()];
    let int = DataType::Int32;
    assert!(ArrowGrowable::try_new("v", &int, &bufferless, false, 0, &empty_i32()).is_none());
    assert!(ArrowGrowable::try_new("v", &int, &none, false, usize::MAX / 16, &empty_i32()).is_none());
}

#[test]
fn ranges_outside_a_source_are_refused() {
    let ints = Int32Array::from(vec![Some(1), None, Some(3)]).to_data();
    let sources = vec![ints];
    let mut g =
        ArrowGrowable::try_new("v", &DataType::Int32, &sources, false, 0, &empty_i32()).unwrap();
    assert!(g.try_extend(0, 1, 2));
    assert!(!g.try_extend(0, 2, 2));
    assert!(!g.try_extend(1, 0, 1));
    assert!(!g.try_extend(0, usize::MAX, 1));
    assert!(g.try_add_nulls(1));
    assert!(!g.try_add_nulls(usize::MAX));
    assert_eq!(i32_values(g.build().unwrap().data), vec![None, Some(3), None]);

    let text = vec![LargeStringArray::from(vec!["ab", "c"]).to_data()];
    let mut g =
        ArrowGrowable::try_new("s", &DataType::Utf8, &text, false, 0, &empty_utf8()).unwrap();
    assert!(g.try_extend(0, 0, 2));
    assert!(!g.try_extend(0, 1, 2));
    assert_eq!(g.len(), 2);

    let bits = vec![BooleanArray::from(vec![true; 9]).to_data()];
    let empty = BooleanArray::from(Vec::<bool>::new()).to_data();
    let mut g = ArrowGrowable::try_new("b", &DataType::Boolean, &bits, false, 0, &empty).unwrap();
    assert!(g.try_extend(0, 0, 9));
    assert!(!g.try_extend(0, 0, 9000));
}

#[test]
fn bytes_that_are_no_text_are_refused() {
    let text = LargeStringArray::from(vec!["\u{e9}", ""]).to_data();
    let bytes = LargeBinaryArray::from_vec(vec![b"ok", &[0xc3], &[0xa9]]).to_data();
    let sources = vec![text, bytes];
    let mut g = ArrowGrowable::new("s", &DataType::Utf8, &sources, false, 0, &empty_utf8());
    g.extend(0, 0, 2);
    g.extend(1, 0, 1);
    let out = g.build().unwrap();
    let arr = LargeStringArray::from(out.data);
    let got: Vec<Option<&str>> = arr.iter().collect();
    assert_eq!(got, vec![Some("\u{e9}"), Some(""), Some("ok")]);
    // Two halves of a character are text together, but neither is by itself.
    g.extend(1, 1, 2);
    assert!(!g.build().unwrap_err().message().is_empty());
    assert_eq!(g.len(), 0);
    // A failed build leaves nothing behind, and there is nothing to build.
    assert_eq!(g.build().unwrap().data.len(), 0);
}

#[test]
fn null_growable_counts() {
    let mut g = ArrowNullGrowable::new("n", &DataType::Null);
    g.extend(3, 10, 4);
    g.add_nulls(2);
    assert_eq!(g.len(), 6);
    let out = g.build();
    assert_eq!(out.len, 6);
    assert_eq!(out.name, "n");
    assert_eq!(out.dtype, DataType::Null);
    assert_eq!(g.len(), 0);
}
