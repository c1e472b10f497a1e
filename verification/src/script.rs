//! The rules of a script stage's output: the first batch fixes the schema and
//! every later batch must match it; how a schema is described; and the errors
//! reported when a batch fails or changes the schema.
use vstd::prelude::*;

use crate::text::{decimal, push_decimal, push_str, string_of, chars_of};

verus! {

/// A schema's fields as (name, type description) pairs of character sequences.
pub open spec fn fields_view(f: Seq<(String, String)>) -> Seq<(Seq<char>, Seq<char>)> {
    f.map_values(|p: (String, String)| (p.0@, p.1@))
}

/// One field, written `name: type`.
pub open spec fn field_text(f: (Seq<char>, Seq<char>)) -> Seq<char> {
    f.0 + ": "@ + f.1
}

/// The fields of a schema, each written `name: type`, separated by `, `.
pub open spec fn schema_text(fs: Seq<(Seq<char>, Seq<char>)>) -> Seq<char>
    decreases fs.len(),
{
    if fs.len() == 0 {
        Seq::empty()
    } else if fs.len() == 1 {
        field_text(fs[0])
    } else {
        schema_text(fs.drop_last()) + ", "@ + field_text(fs.last())
    }
}

/// Describes a schema, given each field's name and type description.
pub fn fmt_schema(fields: &Vec<(String, String)>) -> (s: String)
    ensures
        s@ == schema_text(fields_view(fields@)),
{
    let mut s = String::new();
    let mut i: usize = 0;
    while i < fields.len()
        invariant
            i <= fields@.len(),
            s@ == schema_text(fields_view(fields@.take(i as int))),
        decreases fields@.len() - i,
    {
        let ghost x = fields_view(fields@.take(i + 1));
        assert(x.drop_last() =~= fields_view(fields@.take(i as int)));
        assert(x.last() == (fields@[i as int].0@, fields@[i as int].1@));
        if i > 0 {
            push_str(&mut s, ", ");
        }
        push_str(&mut s, fields[i].0.as_str());
        push_str(&mut s, ": ");
        push_str(&mut s, fields[i].1.as_str());
        proof {
            if i == 0 {
                assert(x.len() == 1);
                assert(s@ =~= field_text(x[0]));
            } else {
                assert(s@ =~= schema_text(x.drop_last()) + ", "@ + field_text(x.last()));
            }
        }
        i = i + 1;
    }
    assert(fields@.take(fields@.len() as int) =~= fields@);
    s
}

/// The error of a script stage whose output schema differs from that of its
/// first batch.
pub open spec fn schema_changed_text(
    batch_index: nat,
    first: Seq<(Seq<char>, Seq<char>)>,
    this: Seq<(Seq<char>, Seq<char>)>,
) -> Seq<char> {
    "batch "@ + decimal(batch_index) + ": this stage's output schema changed.\nfirst batch: ["@
        + schema_text(first) + "]\nthis batch:  ["@ + schema_text(this)
        + "]\nevery batch a stage returns must have the same columns and types."@
}

/// Reports that batch `batch_index` came back with schema `this` where the
/// first batch had `first`.
pub fn schema_changed_message(
    batch_index: usize,
    first: &Vec<(String, String)>,
    this: &Vec<(String, String)>,
) -> (s: String)
    ensures
        s@ == schema_changed_text(batch_index as nat, fields_view(first@), fields_view(this@)),
{
    let a = fmt_schema(first);
    let b = fmt_schema(this);
    let mut s = String::new();
    push_str(&mut s, "batch ");
    push_decimal(&mut s, batch_index as u64);
    push_str(&mut s, ": this stage's output schema changed.\nfirst batch: [");
    push_str(&mut s, a.as_str());
    push_str(&mut s, "]\nthis batch:  [");
    push_str(&mut s, b.as_str());
    push_str(&mut s, "]\nevery batch a stage returns must have the same columns and types.");
    assert(s@ =~= schema_changed_text(
        batch_index as nat,
        fields_view(first@),
        fields_view(this@),
    ));
    s
}

/// The error of a script stage whose function raised on a batch: the batch
/// index, then the formatted traceback, then the exception itself.
pub open spec fn batch_failure_text(
    batch_index: nat,
    traceback: Seq<char>,
    exception: Seq<char>,
) -> Seq<char> {
    "batch "@ + decimal(batch_index) + ":\n"@ + traceback + exception
}

/// Reports that the stage function raised `exception` on batch `batch_index`.
pub fn batch_failure_message(batch_index: usize, traceback: &str, exception: &str) -> (s: String)
    ensures
        s@ == batch_failure_text(batch_index as nat, traceback@, exception@),
{
    let mut s = String::new();
    push_str(&mut s, "batch ");
    push_decimal(&mut s, batch_index as u64);
    push_str(&mut s, ":\n");
    push_str(&mut s, traceback);
    push_str(&mut s, exception);
    assert(s@ =~= batch_failure_text(batch_index as nat, traceback@, exception@));
    s
}


// ---------------------------------------------------------------------------
// The output schema
// ---------------------------------------------------------------------------

/// What a schema comparison reads of a field: its name, a description of its
/// type, whether it is nullable, and its metadata (as key-value pairs ordered
/// by key).
#[derive(Clone, Debug, PartialEq, Eq)]
pub struct FieldDesc {
    pub name: String,
    pub data_type: String,
    pub nullable: bool,
    pub metadata: Vec<(String, String)>,
}

/// What a schema comparison reads of a schema: its fields, in order, and its
/// metadata (as key-value pairs ordered by key).
#[derive(Clone, Debug, PartialEq, Eq)]
pub struct SchemaDesc {
    pub fields: Vec<FieldDesc>,
    pub metadata: Vec<(String, String)>,
}

/// A field as a mathematical value.
pub struct FieldView {
    pub name: Seq<char>,
    pub data_type: Seq<char>,
    pub nullable: bool,
    pub metadata: Seq<(Seq<char>, Seq<char>)>,
}

/// A schema as a mathematical value.
pub struct SchemaView {
    pub fields: Seq<FieldView>,
    pub metadata: Seq<(Seq<char>, Seq<char>)>,
}

impl View for FieldDesc {
    type V = FieldView;

    open spec fn view(&self) -> FieldView {
        FieldView {
            name: self.name@,
            data_type: self.data_type@,
            nullable: self.nullable,
            metadata: fields_view(self.metadata@),
        }
    }
}

impl View for SchemaDesc {
    type V = SchemaView;

    open spec fn view(&self) -> SchemaView {
        SchemaView { fields: self.fields@.map_values(|f: FieldDesc| f@), metadata: fields_view(self.metadata@) }
    }
}

/// Each field's name and type description, as a schema is described.
pub open spec fn name_types(s: SchemaView) -> Seq<(Seq<char>, Seq<char>)> {
    s.fields.map_values(|f: FieldView| (f.name, f.data_type))
}

fn pairs_equal(a: &Vec<(String, String)>, b: &Vec<(String, String)>) -> (r: bool)
    ensures
        r == (fields_view(a@) == fields_view(b@)),
{
    if a.len() != b.len() {
        proof {
            if fields_view(a@) == fields_view(b@) {
                assert(fields_view(a@).len() == a@.len());
            }
        }
        return false;
    }
    let mut i: usize = 0;
    while i < a.len()
        invariant
            a@.len() == b@.len(),
            i <= a@.len(),
            forall|k: int| 0 <= k < i ==> #[trigger] fields_view(a@)[k] == fields_view(b@)[k],
        decreases a@.len() - i,
    {
        if !(a[i].0 == b[i].0 && a[i].1 == b[i].1) {
            assert(fields_view(a@)[i as int] != fields_view(b@)[i as int]);
            return false;
        }
        i = i + 1;
    }
    assert(fields_view(a@) =~= fields_view(b@));
    true
}

fn field_equal(a: &FieldDesc, b: &FieldDesc) -> (r: bool)
    ensures
        r == (a@ == b@),
{
    a.name == b.name && a.data_type == b.data_type && a.nullable == b.nullable && pairs_equal(
        &a.metadata,
        &b.metadata,
    )
}

fn schema_equal(a: &SchemaDesc, b: &SchemaDesc) -> (r: bool)
    ensures
        r == (a@ == b@),
{
    if !pairs_equal(&a.metadata, &b.metadata) {
        return false;
    }
    let ghost fa = a.fields@.map_values(|f: FieldDesc| f@);
    let ghost fb = b.fields@.map_values(|f: FieldDesc| f@);
    if a.fields.len() != b.fields.len() {
        assert(fa.len() != fb.len());
        return false;
    }
    let mut i: usize = 0;
    while i < a.fields.len()
        invariant
            a.fields@.len() == b.fields@.len(),
            i <= a.fields@.len(),
            fa == a.fields@.map_values(|f: FieldDesc| f@),
            fb == b.fields@.map_values(|f: FieldDesc| f@),
            forall|k: int| 0 <= k < i ==> #[trigger] fa[k] == fb[k],
        decreases a.fields@.len() - i,
    {
        if !field_equal(&a.fields[i], &b.fields[i]) {
            assert(fa[i as int] != fb[i as int]);
            return false;
        }
        i = i + 1;
    }
    assert(fa =~= fb);
    true
}

/// Each field's name and type description.
fn name_types_of(s: &SchemaDesc) -> (r: Vec<(String, String)>)
    ensures
        fields_view(r@) == name_types(s@),
{
    let mut r: Vec<(String, String)> = Vec::new();
    let mut i: usize = 0;
    while i < s.fields.len()
        invariant
            i <= s.fields@.len(),
            fields_view(r@) == name_types(s@).take(i as int),
        decreases s.fields@.len() - i,
    {
        let f = &s.fields[i];
        let ghost before = r@;
        r.push((string_of(&chars_of(f.name.as_str())), string_of(&chars_of(f.data_type.as_str()))));
        assert(s@.fields[i as int] == s.fields@[i as int]@);
        assert(name_types(s@)[i as int] == (f.name@, f.data_type@));
        assert(fields_view(r@) =~= fields_view(before).push((f.name@, f.data_type@)));
        assert(fields_view(r@) =~= name_types(s@).take(i + 1));
        i = i + 1;
    }
    assert(name_types(s@).take(s.fields@.len() as int) =~= name_types(s@));
    r
}

/// Checks the output of batch `batch_index` of a script stage, whose schema is
/// `got`, against the schema fixed by the stage's first batch (`None` while no
/// batch has come out): the same schema passes, any other is refused with a
/// message naming the batch and both schemas.
pub fn check_output(first: &Option<SchemaDesc>, got: &SchemaDesc, batch_index: usize) -> (r: Result<(), String>)
    ensures
        first is None ==> r is Ok,
        first matches Some(f) ==> (r is Ok <==> f@ == got@),
        first matches Some(f) ==> (r matches Err(m) ==> m@ == schema_changed_text(
            batch_index as nat,
            name_types(f@),
            name_types(got@),
        )),
{
    match first {
        None => Ok(()),
        Some(f) => {
            if schema_equal(f, got) {
                Ok(())
            } else {
                let a = name_types_of(f);
                let b = name_types_of(got);
                Err(schema_changed_message(batch_index, &a, &b))
            }
        },
    }
}

} // verus!
