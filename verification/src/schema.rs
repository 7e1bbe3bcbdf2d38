//! Schema, documents and terms of the inverted index. Field names and text
//! are handled as UTF-8 bytes; text fields are tokenized with
//! [`crate::tokenize::tokenize_bytes`]. Floating-point field values enter
//! the index as their caller-supplied 64-bit encoding, so the index itself
//! only ever stores integers and bytes.

use vstd::prelude::*;
use vstd::string::{StrSliceExecFns, StringSliceAdditionalSpecFns};

verus! {

/// Compares two byte strings.
pub fn bytes_eq(a: &Vec<u8>, b: &Vec<u8>) -> (r: bool)
    ensures
        r == (a@ == b@),
{
    if a.len() != b.len() {
        assert(a@ != b@) by {
            assert(a@.len() != b@.len());
        }
        return false;
    }
    let mut i: usize = 0;
    while i < a.len()
        invariant
            a@.len() == b@.len(),
            i <= a@.len(),
            forall|j: int| 0 <= j < i ==> a@[j] == b@[j],
        decreases a@.len() - i,
    {
        if a[i] != b[i] {
            return false;
        }
        i += 1;
    }
    proof {
        assert(a@ =~= b@);
    }
    true
}

/// A handle to a field of the schema: its position in the field list.
#[derive(Clone, Copy, PartialEq, Eq, Structural, Debug)]
pub struct Field {
    pub id: u32,
}

impl Field {
    pub fn from_field_id(id: u32) -> (r: Field)
        ensures
            r.id == id,
    {
        Field { id }
    }

    pub fn field_id(&self) -> (r: u32)
        ensures
            r == self.id,
    {
        self.id
    }
}

/// The value type a field stores.
#[derive(Clone, Copy, PartialEq, Eq, Structural, Debug)]
pub enum FieldKind {
    Text,
    U64,
    I64,
    Float,
}

/// How a field is handled at indexing time. `Text` means tokenized and
/// indexed; `Indexed` means indexed as one exact term; `Stored` means kept
/// for retrieval only; `Column` means kept as a per-document columnar
/// value.
#[derive(Clone, Copy, PartialEq, Eq, Structural, Debug)]
pub enum IndexingOption {
    Text,
    Indexed,
    Stored,
    Column,
}

#[derive(Debug)]
pub struct FieldEntry {
    pub name: Vec<u8>,
    pub kind: FieldKind,
    pub option: IndexingOption,
}

impl Clone for FieldEntry {
    fn clone(&self) -> (r: Self)
        ensures
            r@ == self@,
    {
        FieldEntry { name: self.name.clone(), kind: self.kind, option: self.option }
    }
}

/// The ghost image of a field entry.
pub struct FieldEntryView {
    pub name: Seq<u8>,
    pub kind: FieldKind,
    pub option: IndexingOption,
}

impl View for FieldEntry {
    type V = FieldEntryView;

    open spec fn view(&self) -> FieldEntryView {
        FieldEntryView { name: self.name@, kind: self.kind, option: self.option }
    }
}

#[derive(Debug)]
pub struct Schema {
    pub fields: Vec<FieldEntry>,
}

impl Clone for Schema {
    fn clone(&self) -> (r: Self)
        ensures
            r@ == self@,
    {
        let mut out: Vec<FieldEntry> = Vec::new();
        let mut i: usize = 0;
        while i < self.fields.len()
            invariant
                i <= self.fields@.len(),
                out@.len() == i,
                forall|j: int| 0 <= j < i ==> (#[trigger] out@[j])@ == self.fields@[j]@,
            decreases self.fields@.len() - i,
        {
            let e = self.fields[i].clone();
            out.push(e);
            i += 1;
        }
        proof {
            assert forall|j: int| 0 <= j < self.fields@.len() implies fields_view(out@)[j]
                == fields_view(self.fields@)[j] by {}
            assert(fields_view(out@) =~~= fields_view(self.fields@));
        }
        Schema { fields: out }
    }
}

/// The ghost image of a field list.
pub open spec fn fields_view(s: Seq<FieldEntry>) -> Seq<FieldEntryView> {
    s.map_values(|f: FieldEntry| f@)
}

/// The ghost image of a document's entry list.
pub open spec fn entries_view(s: Seq<(Field, Value)>) -> Seq<(Field, ValueView)> {
    s.map_values(|p: (Field, Value)| (p.0, p.1@))
}

/// The ghost image of a value list.
pub open spec fn values_view(s: Seq<Value>) -> Seq<ValueView> {
    s.map_values(|v: Value| v@)
}

impl View for Schema {
    type V = Seq<FieldEntryView>;

    open spec fn view(&self) -> Seq<FieldEntryView> {
        fields_view(self.fields@)
    }
}

/// The index of the first field with this name, if any.
pub open spec fn spec_find_field(fields: Seq<FieldEntryView>, name: Seq<u8>, i: int) -> Option<int>
    decreases fields.len() - i,
{
    if i < 0 || i >= fields.len() {
        None
    } else if fields[i].name == name {
        Some(i)
    } else {
        spec_find_field(fields, name, i + 1)
    }
}

pub struct SchemaBuilder {
    pub fields: Vec<FieldEntry>,
}

impl SchemaBuilder {
    fn add_field(&mut self, name: &str, kind: FieldKind, option: IndexingOption) -> (r: Field)
        requires
            old(self)@.len() < u32::MAX,
        ensures
            final(self)@ == old(self)@.push(
                FieldEntryView { name: name.spec_bytes(), kind, option },
            ),
            r.id == old(self)@.len(),
    {
        proof {
            assert(self@.len() == self.fields@.len());
        }
        let id = self.fields.len() as u32;
        self.fields.push(FieldEntry { name: name.as_bytes_vec(), kind, option });
        proof {
            assert(self@ =~= old(self)@.push(
                FieldEntryView { name: name.spec_bytes(), kind, option },
            ));
        }
        Field { id }
    }

    pub fn add_text_field(&mut self, name: &str, option: IndexingOption) -> (r: Field)
        requires
            old(self)@.len() < u32::MAX,
        ensures
            final(self)@ == old(self)@.push(
                FieldEntryView { name: name.spec_bytes(), kind: FieldKind::Text, option },
            ),
            r.id == old(self)@.len(),
    {
        self.add_field(name, FieldKind::Text, option)
    }

    pub fn add_u64_field(&mut self, name: &str, option: IndexingOption) -> (r: Field)
        requires
            old(self)@.len() < u32::MAX,
        ensures
            final(self)@ == old(self)@.push(
                FieldEntryView { name: name.spec_bytes(), kind: FieldKind::U64, option },
            ),
            r.id == old(self)@.len(),
    {
        self.add_field(name, FieldKind::U64, option)
    }

    pub fn add_i64_field(&mut self, name: &str, option: IndexingOption) -> (r: Field)
        requires
            old(self)@.len() < u32::MAX,
        ensures
            final(self)@ == old(self)@.push(
                FieldEntryView { name: name.spec_bytes(), kind: FieldKind::I64, option },
            ),
            r.id == old(self)@.len(),
    {
        self.add_field(name, FieldKind::I64, option)
    }

    pub fn add_float_field(&mut self, name: &str, option: IndexingOption) -> (r: Field)
        requires
            old(self)@.len() < u32::MAX,
        ensures
            final(self)@ == old(self)@.push(
                FieldEntryView { name: name.spec_bytes(), kind: FieldKind::Float, option },
            ),
            r.id == old(self)@.len(),
    {
        self.add_field(name, FieldKind::Float, option)
    }

    pub fn build(self) -> (r: Schema)
        ensures
            r@ == self@,
    {
        Schema { fields: self.fields }
    }
}

impl View for SchemaBuilder {
    type V = Seq<FieldEntryView>;

    open spec fn view(&self) -> Seq<FieldEntryView> {
        fields_view(self.fields@)
    }
}

impl Schema {
    pub fn builder() -> (r: SchemaBuilder)
        ensures
            r@ == Seq::<FieldEntryView>::empty(),
    {
        let b = SchemaBuilder { fields: Vec::new() };
        proof {
            assert(b@ =~= Seq::<FieldEntryView>::empty());
        }
        b
    }

    pub open spec fn spec_num_fields(&self) -> nat {
        self@.len()
    }

    pub fn num_fields(&self) -> (r: usize)
        ensures
            r == self.spec_num_fields(),
    {
        self.fields.len()
    }

    /// Looks a field up by name.
    pub fn get_field(&self, name: &str) -> (r: Option<Field>)
        requires
            self@.len() < u32::MAX,
        ensures
            match r {
                Some(f) => spec_find_field(self@, name.spec_bytes(), 0) == Some(f.id as int)
                    && f.id < self@.len(),
                None => spec_find_field(self@, name.spec_bytes(), 0) is None,
            },
    {
        let name_bytes = name.as_bytes_vec();
        let mut i: usize = 0;
        while i < self.fields.len()
            invariant
                self@.len() < u32::MAX,
                i <= self@.len(),
                name_bytes@ == name.spec_bytes(),
                spec_find_field(self@, name.spec_bytes(), 0) == spec_find_field(
                    self@,
                    name.spec_bytes(),
                    i as int,
                ),
            decreases self@.len() - i,
        {
            let entry = &self.fields[i];
            if bytes_eq(&entry.name, &name_bytes) {
                return Some(Field { id: i as u32 });
            }
            i += 1;
        }
        None
    }

    /// The entry for a field handle.
    pub fn entry(&self, field: Field) -> (r: &FieldEntry)
        requires
            field.id < self@.len(),
        ensures
            r@ == self@[field.id as int],
    {
        &self.fields[field.id as usize]
    }
}

/// One stored field value. Text is UTF-8 bytes; a 64-bit float is carried
/// as a caller-supplied bit encoding.
#[derive(Debug)]
pub enum Value {
    Str(Vec<u8>),
    U64(u64),
    I64(i64),
    FloatBits(u64),
}

/// The ghost image of a value.
pub enum ValueView {
    Str(Seq<u8>),
    U64(u64),
    I64(i64),
    FloatBits(u64),
}

impl View for Value {
    type V = ValueView;

    open spec fn view(&self) -> ValueView {
        match self {
            Value::Str(b) => ValueView::Str(b@),
            Value::U64(v) => ValueView::U64(*v),
            Value::I64(v) => ValueView::I64(*v),
            Value::FloatBits(v) => ValueView::FloatBits(*v),
        }
    }
}

impl Clone for Value {
    fn clone(&self) -> (r: Self)
        ensures
            r@ == self@,
    {
        match self {
            Value::Str(b) => Value::Str(b.clone()),
            Value::U64(v) => Value::U64(*v),
            Value::I64(v) => Value::I64(*v),
            Value::FloatBits(v) => Value::FloatBits(*v),
        }
    }
}

impl Value {
    /// The text bytes, when this is a text value.
    pub fn as_str(&self) -> (r: Option<&Vec<u8>>)
        ensures
            match r {
                Some(b) => self@ == ValueView::Str(b@),
                None => !(self@ is Str),
            },
    {
        match self {
            Value::Str(b) => Some(b),
            _ => None,
        }
    }

    pub fn as_u64(&self) -> (r: Option<u64>)
        ensures
            match r {
                Some(v) => self@ == ValueView::U64(v),
                None => !(self@ is U64),
            },
    {
        match self {
            Value::U64(v) => Some(*v),
            _ => None,
        }
    }
}

/// A document: an ordered list of (field, value) pairs.
#[derive(Debug)]
pub struct TantivyDocument {
    pub field_values: Vec<(Field, Value)>,
}

impl View for TantivyDocument {
    type V = Seq<(Field, ValueView)>;

    open spec fn view(&self) -> Seq<(Field, ValueView)> {
        entries_view(self.field_values@)
    }
}

impl Clone for TantivyDocument {
    fn clone(&self) -> (r: Self)
        ensures
            r@ == self@,
    {
        let mut out: Vec<(Field, Value)> = Vec::new();
        let mut i: usize = 0;
        while i < self.field_values.len()
            invariant
                i <= self.field_values@.len(),
                out@.len() == i,
                forall|j: int|
                    0 <= j < i ==> (#[trigger] out@[j]).0 == self.field_values@[j].0 && out@[j].1@
                        == self.field_values@[j].1@,
            decreases self.field_values@.len() - i,
        {
            let pair = &self.field_values[i];
            let copied = pair.1.clone();
            out.push((pair.0, copied));
            i += 1;
        }
        proof {
            assert forall|j: int| 0 <= j < self@.len() implies entries_view(out@)[j] == self@[j]
                by {}
            assert(entries_view(out@) =~= self@);
        }
        TantivyDocument { field_values: out }
    }
}

impl TantivyDocument {
    pub fn new() -> (r: Self)
        ensures
            r@ == Seq::<(Field, ValueView)>::empty(),
    {
        let d = TantivyDocument { field_values: Vec::new() };
        proof {
            assert(d@ =~= Seq::<(Field, ValueView)>::empty());
        }
        d
    }

    pub fn len(&self) -> (r: usize)
        ensures
            r == self@.len(),
    {
        self.field_values.len()
    }

    pub fn add_text(&mut self, field: Field, text: &str)
        ensures
            final(self)@ == old(self)@.push((field, ValueView::Str(text.spec_bytes()))),
    {
        self.field_values.push((field, Value::Str(text.as_bytes_vec())));
        proof {
            assert(self@ =~= old(self)@.push((field, ValueView::Str(text.spec_bytes()))));
        }
    }

    pub fn add_u64(&mut self, field: Field, value: u64)
        ensures
            final(self)@ == old(self)@.push((field, ValueView::U64(value))),
    {
        self.field_values.push((field, Value::U64(value)));
        proof {
            assert(self@ =~= old(self)@.push((field, ValueView::U64(value))));
        }
    }

    pub fn add_i64(&mut self, field: Field, value: i64)
        ensures
            final(self)@ == old(self)@.push((field, ValueView::I64(value))),
    {
        self.field_values.push((field, Value::I64(value)));
        proof {
            assert(self@ =~= old(self)@.push((field, ValueView::I64(value))));
        }
    }

    /// Adds a 64-bit float value by its caller-supplied order-preserving
    /// bit encoding.
    pub fn add_float_bits(&mut self, field: Field, bits: u64)
        ensures
            final(self)@ == old(self)@.push((field, ValueView::FloatBits(bits))),
    {
        self.field_values.push((field, Value::FloatBits(bits)));
        proof {
            assert(self@ =~= old(self)@.push((field, ValueView::FloatBits(bits))));
        }
    }

    /// All values of one field, in insertion order.
    pub fn get_all(&self, field: Field) -> (r: Vec<Value>)
        ensures
            values_view(r@) == spec_values_of(self@, field),
    {
        let mut out: Vec<Value> = Vec::new();
        let mut i: usize = 0;
        proof {
            assert(values_view(out@) + spec_values_of_from(self@, field, 0)
                =~= spec_values_of(self@, field));
        }
        while i < self.field_values.len()
            invariant
                i <= self.field_values@.len(),
                values_view(out@) + spec_values_of_from(self@, field, i as int)
                    == spec_values_of(self@, field),
            decreases self.field_values@.len() - i,
        {
            let ghost pre = values_view(out@);
            let pair = &self.field_values[i];
            if pair.0.id == field.id {
                proof {
                    assert(pair.0 == field);
                }
                out.push(pair.1.clone());
                proof {
                    assert(values_view(out@) =~= pre + seq![self@[i as int].1]);
                    assert(pre + seq![self@[i as int].1] + spec_values_of_from(
                        self@,
                        field,
                        i as int + 1,
                    ) =~= pre + spec_values_of_from(self@, field, i as int));
                }
            } else {
                proof {
                    assert(pair.0 != field);
                }
            }
            i += 1;
        }
        proof {
            assert(values_view(out@) =~= spec_values_of(self@, field));
        }
        out
    }
}

/// The values of one field of a document, from entry `i` on.
pub open spec fn spec_values_of_from(doc: Seq<(Field, ValueView)>, field: Field, i: int) -> Seq<
    ValueView,
>
    decreases doc.len() - i,
{
    if i < 0 || i >= doc.len() {
        Seq::empty()
    } else if doc[i].0 == field {
        seq![doc[i].1] + spec_values_of_from(doc, field, i + 1)
    } else {
        spec_values_of_from(doc, field, i + 1)
    }
}

pub open spec fn spec_values_of(doc: Seq<(Field, ValueView)>, field: Field) -> Seq<ValueView> {
    spec_values_of_from(doc, field, 0)
}

/// A term: a field plus the exact value searched for. Text terms hold the
/// token bytes.
#[derive(Debug)]
pub struct Term {
    pub field: Field,
    pub value: TermValue,
}

#[derive(Debug)]
pub enum TermValue {
    Bytes(Vec<u8>),
    U64(u64),
    I64(i64),
    FloatBits(u64),
}

pub enum TermValueView {
    Bytes(Seq<u8>),
    U64(u64),
    I64(i64),
    FloatBits(u64),
}

pub struct TermView {
    pub field: Field,
    pub value: TermValueView,
}

impl View for TermValue {
    type V = TermValueView;

    open spec fn view(&self) -> TermValueView {
        match self {
            TermValue::Bytes(b) => TermValueView::Bytes(b@),
            TermValue::U64(v) => TermValueView::U64(*v),
            TermValue::I64(v) => TermValueView::I64(*v),
            TermValue::FloatBits(v) => TermValueView::FloatBits(*v),
        }
    }
}

impl View for Term {
    type V = TermView;

    open spec fn view(&self) -> TermView {
        TermView { field: self.field, value: self.value@ }
    }
}

impl Term {
    pub fn from_field_text(field: Field, text: &str) -> (r: Term)
        ensures
            r@ == (TermView { field, value: TermValueView::Bytes(text.spec_bytes()) }),
    {
        Term { field, value: TermValue::Bytes(text.as_bytes_vec()) }
    }

    pub fn from_field_u64(field: Field, value: u64) -> (r: Term)
        ensures
            r@ == (TermView { field, value: TermValueView::U64(value) }),
    {
        Term { field, value: TermValue::U64(value) }
    }

    pub fn from_field_i64(field: Field, value: i64) -> (r: Term)
        ensures
            r@ == (TermView { field, value: TermValueView::I64(value) }),
    {
        Term { field, value: TermValue::I64(value) }
    }

    /// A float term, by the same bit encoding documents use.
    pub fn from_field_float_bits(field: Field, bits: u64) -> (r: Term)
        ensures
            r@ == (TermView { field, value: TermValueView::FloatBits(bits) }),
    {
        Term { field, value: TermValue::FloatBits(bits) }
    }

    pub fn field(&self) -> (r: Field)
        ensures
            r == self.field,
    {
        self.field
    }
}

} // verus!
