use std::sync::Arc;

use arrow_array::{Array, ArrayRef, Int64Array, StringArray};
use daft_ext::arrow_bridge::{arrow_to_daft_batches, daft_batches_to_arrow, source_to_arrow};
use daft_ext::error::DaftError;
use daft_ext::record_batch::{MicroPartition, RecordBatch};
use daft_ext::schema::{DataType, Field, Schema};

#[derive(Clone, Copy, Debug, PartialEq)]
enum Value {
    Int(i64),
    Text(&'static str),
}

fn sample_batch() -> RecordBatch<Value> {
    let a = vec![Value::Int(1), Value::Int(2), Value::Int(3)];
    let b = vec![Value::Text("x"), Value::Text("y"), Value::Text("z")];
    let schema = Schema::new(vec![
        Field::new("a", DataType::Int64),
        Field::new("b", DataType::Utf8),
    ]);
    RecordBatch::new(schema, vec![a, b], 3)
}

fn to_arrow(batch: &RecordBatch<Value>) -> Result<arrow_array::RecordBatch, DaftError> {
    let columns = batch
        .schema
        .fields
        .iter()
        .zip(&batch.columns)
        .map(|(field, column)| {
            let array: ArrayRef = match field.dtype {
                DataType::Int64 => Arc::new(Int64Array::from_iter_values(column.iter().map(
                    |v| match v {
                        Value::Int(i) => *i,
                        Value::Text(_) => panic!("not an integer"),
                    },
                ))),
                _ => Arc::new(StringArray::from_iter_values(column.iter().map(
                    |v| match v {
                        Value::Text(s) => *s,
                        Value::Int(_) => panic!("not text"),
                    },
                ))),
            };
            (field.name.to_string(), array)
        })
        .collect::<Vec<_>>();
    arrow_array::RecordBatch::try_from_iter(columns)
        .map_err(|e| DaftError::External(e.to_string()))
}

fn from_arrow(batch: &arrow_array::RecordBatch) -> Result<RecordBatch<Value>, DaftError> {
    let mut fields = vec![];
    let mut columns = vec![];
    for (field, array) in batch.schema().fields().iter().zip(batch.columns()) {
        if let Some(ints) = array.as_any().downcast_ref::<Int64Array>() {
            fields.push(Field::new(field.name(), DataType::Int64));
            columns.push(ints.values().iter().map(|i| Value::Int(*i)).collect());
        } else {
            let texts = array.as_any().downcast_ref::<StringArray>().unwrap();
            fields.push(Field::new(field.name(), DataType::Utf8));
            columns.push(
                (0..texts.len())
                    .map(|i| match texts.value(i) {
                        "x" => Value::Text("x"),
                        "y" => Value::Text("y"),
                        _ => Value::Text("z"),
                    })
                    .collect::<Vec<_>>(),
            );
        }
    }
    Ok(RecordBatch::new(Schema::new(fields), columns, batch.num_rows()))
}

#[test]
fn round_trips_daft_arrow_daft() {
    let original = sample_batch();
    let arrow = daft_batches_to_arrow(&vec![sample_batch()], to_arrow).unwrap();
    assert_eq!(arrow.len(), 1);
    assert_eq!(arrow[0].num_rows(), 3);
    let back = arrow_to_daft_batches(arrow, from_arrow).unwrap();
    assert_eq!(back.len(), 1);
    assert_eq!(back[0].len(), original.len());
    assert_eq!(
        format!("{:?}", back[0].schema),
        format!("{:?}", original.schema)
    );
    assert_eq!(back[0].columns, original.columns);
}

#[test]
fn sources_are_flattened_in_order() {
    let one = |n: i64| {
        RecordBatch::new(
            Schema::new(vec![Field::new("n", DataType::Int64)]),
            vec![vec![n]],
            1,
        )
    };
    let schema = Arc::new(Schema::new(vec![Field::new("n", DataType::Int64)]));
    let mps = vec![
        Arc::new(MicroPartition::new_loaded(schema.clone(), vec![one(1), one(2)])),
        Arc::new(MicroPartition::new_loaded(schema.clone(), vec![])),
        Arc::new(MicroPartition::new_loaded(schema, vec![one(3)])),
    ];
    let all = source_to_arrow(&mps, |b: &RecordBatch<i64>| Ok(b.columns[0][0])).unwrap();
    assert_eq!(all, vec![1, 2, 3]);
    let failed = source_to_arrow(&mps, |b: &RecordBatch<i64>| {
        if b.columns[0][0] < 2 {
            Ok(())
        } else {
            Err(DaftError::ValueError(format!("batch {}", b.columns[0][0])))
        }
    });
    assert_eq!(failed.unwrap_err().message(), "batch 2");
}
