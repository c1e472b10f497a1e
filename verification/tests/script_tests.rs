use ril::script::{batch_failure_message, fmt_schema, schema_changed_message};

fn fields(v: &[(&str, &str)]) -> Vec<(String, String)> {
    v.iter().map(|(a, b)| (a.to_string(), b.to_string())).collect()
}

#[test]
fn schema_is_written_field_by_field() {
    assert_eq!(fmt_schema(&fields(&[])), "");
    assert_eq!(fmt_schema(&fields(&[("value", "Int64")])), "value: Int64");
    assert_eq!(
        fmt_schema(&fields(&[("id", "Int64"), ("name", "Utf8"), ("score", "Float64")])),
        "id: Int64, name: Utf8, score: Float64"
    );
}

#[test]
fn schema_change_names_both_schemas() {
    let first = fields(&[("id", "Int64"), ("score", "Float64")]);
    let this = fields(&[("id", "Int64")]);
    assert_eq!(
        schema_changed_message(3, &first, &this),
        "batch 3: this stage's output schema changed.\n\
         first batch: [id: Int64, score: Float64]\n\
         this batch:  [id: Int64]\n\
         every batch a stage returns must have the same columns and types."
    );
}

#[test]
fn batch_failure_carries_the_traceback() {
    assert_eq!(
        batch_failure_message(
            3,
            "Traceback (most recent call last):\n  File \"featurize.py\", line 10, in process\n",
            "ValueError: kaboom"
        ),
        "batch 3:\nTraceback (most recent call last):\n  File \"featurize.py\", line 10, in process\nValueError: kaboom"
    );
    assert_eq!(batch_failure_message(0, "", "boom"), "batch 0:\nboom");
}

use ril::script::{check_output, FieldDesc, SchemaDesc};

fn field(name: &str, ty: &str, nullable: bool) -> FieldDesc {
    FieldDesc { name: name.to_string(), data_type: ty.to_string(), nullable, metadata: vec![] }
}

fn schema(fields: Vec<FieldDesc>) -> SchemaDesc {
    SchemaDesc { fields, metadata: vec![] }
}

#[test]
fn first_batch_fixes_the_schema() {
    let s = schema(vec![field("id", "Int64", false), field("score", "Float64", true)]);
    assert_eq!(check_output(&None, &s, 0), Ok(()));
    assert_eq!(check_output(&Some(s.clone()), &s.clone(), 5), Ok(()));
}

#[test]
fn a_changed_schema_stops_the_stage() {
    let first = schema(vec![field("id", "Int64", false), field("score", "Float64", true)]);
    let fewer = schema(vec![field("id", "Int64", false)]);
    assert_eq!(
        check_output(&Some(first.clone()), &fewer, 3),
        Err("batch 3: this stage's output schema changed.\n\
             first batch: [id: Int64, score: Float64]\n\
             this batch:  [id: Int64]\n\
             every batch a stage returns must have the same columns and types."
            .to_string())
    );
    // Nullability and metadata count too, though the message shows names and types.
    let nullable = schema(vec![field("id", "Int64", true), field("score", "Float64", true)]);
    assert!(check_output(&Some(first.clone()), &nullable, 1).is_err());
    let mut tagged = first.clone();
    tagged.fields[0].metadata = vec![("unit".to_string(), "m".to_string())];
    assert!(check_output(&Some(first.clone()), &tagged, 1).is_err());
    let mut meta = first.clone();
    meta.metadata = vec![("k".to_string(), "v".to_string())];
    assert!(check_output(&Some(first), &meta, 1).is_err());
}
