//! Structured values and the shapes that drive decoding.  A value is
//! polymorphic over four capabilities: scalar, optional, sequence and
//! record; the two sequence strategies (repeated key, array wrapper) are
//! distinct capabilities chosen per field.

use vstd::prelude::*;

use crate::array::Array;
use crate::scalar::{model_kind, Scalar, ScalarKind, ScalarModel};
use crate::text::texts_model;

verus! {

/// A structured in-memory value.  Records list their fields in declared
/// order; a nested record flattens into the enclosing namespace on the
/// wire.  A sequence holds scalar elements and is encoded by repeating
/// its key; an array-wrapper sequence is encoded as one sub-document.
#[derive(Debug, PartialEq, Eq)]
pub enum Value {
    Scalar(Scalar),
    Opt(Option<Box<Value>>),
    List(Vec<Scalar>),
    Arr(Array),
    Record(Vec<(String, Value)>),
}

/// The shape of a target type: what the decoder is asked to produce,
/// known before any wire value is read.  The shape alone picks the
/// sequence strategy: a `List` field always reads its key's values as
/// repeated-key elements, and an `Arr` field always parses its key's
/// first value as one sub-encoded document, whatever the text looks
/// like.
#[derive(Debug, PartialEq, Eq)]
pub enum Shape {
    Scalar(ScalarKind),
    Opt(Box<Shape>),
    List(ScalarKind),
    Arr,
    Record(Vec<(String, Shape)>),
}

/// The mathematical value of a [`Value`], with text as character
/// sequences.
pub enum ValueModel {
    Scalar(ScalarModel),
    Opt(Option<Box<ValueModel>>),
    List(Seq<ScalarModel>),
    Arr(Seq<Seq<char>>),
    Record(Seq<(Seq<char>, ValueModel)>),
}

/// The mathematical value of a [`Shape`].
pub enum ShapeModel {
    Scalar(ScalarKind),
    Opt(Box<ShapeModel>),
    List(ScalarKind),
    Arr,
    Record(Seq<(Seq<char>, ShapeModel)>),
}

impl Value {
    pub open spec fn model(self) -> ValueModel
        decreases self,
    {
        match self {
            Value::Scalar(s) => ValueModel::Scalar(s.model()),
            Value::Opt(o) => match o {
                Option::Some(b) => ValueModel::Opt(Option::Some(Box::new((*b).model()))),
                Option::None => ValueModel::Opt(Option::None),
            },
            Value::List(elems) => ValueModel::List(elems@.map_values(|sc: Scalar| sc.model())),
            Value::Arr(a) => ValueModel::Arr(texts_model(a.0@)),
            Value::Record(fields) => ValueModel::Record(fields_model(fields@)),
        }
    }
}

/// The models of a record's fields, in order.
pub open spec fn fields_model(fields: Seq<(String, Value)>) -> Seq<(Seq<char>, ValueModel)>
    decreases fields,
{
    if fields.len() == 0 {
        seq![]
    } else {
        seq![(fields.first().0@, fields.first().1.model())] + fields_model(fields.drop_first())
    }
}

impl Shape {
    pub open spec fn model(self) -> ShapeModel
        decreases self,
    {
        match self {
            Shape::Scalar(k) => ShapeModel::Scalar(k),
            Shape::Opt(b) => ShapeModel::Opt(Box::new((*b).model())),
            Shape::List(k) => ShapeModel::List(k),
            Shape::Arr => ShapeModel::Arr,
            Shape::Record(fields) => ShapeModel::Record(shape_fields_model(fields@)),
        }
    }
}

/// The models of a record shape's fields, in order.
pub open spec fn shape_fields_model(fields: Seq<(String, Shape)>) -> Seq<(Seq<char>, ShapeModel)>
    decreases fields,
{
    if fields.len() == 0 {
        seq![]
    } else {
        seq![(fields.first().0@, fields.first().1.model())] + shape_fields_model(
            fields.drop_first(),
        )
    }
}

/// Whether a value has a given shape.
pub open spec fn matches_shape(v: ValueModel, s: ShapeModel) -> bool
    decreases s,
{
    match s {
        ShapeModel::Scalar(k) => v matches ValueModel::Scalar(sc) && model_kind(sc) == k,
        ShapeModel::Opt(inner) => match v {
            ValueModel::Opt(o) => match o {
                Option::Some(b) => matches_shape(*b, *inner),
                Option::None => true,
            },
            _ => false,
        },
        ShapeModel::List(k) => v matches ValueModel::List(elems) && (forall|i: int|
            0 <= i < elems.len() ==> model_kind(#[trigger] elems[i]) == k),
        ShapeModel::Arr => v is Arr,
        ShapeModel::Record(sf) => v matches ValueModel::Record(vf) && record_matches(vf, sf),
    }
}

/// Whether a record's fields match a record shape's fields: same names in
/// the same order, each value matching its field's shape.
pub open spec fn record_matches(
    vf: Seq<(Seq<char>, ValueModel)>,
    sf: Seq<(Seq<char>, ShapeModel)>,
) -> bool
    decreases sf,
{
    &&& vf.len() == sf.len()
    &&& sf.len() > 0 ==> {
        &&& vf.first().0 == sf.first().0
        &&& matches_shape(vf.first().1, sf.first().1)
        &&& record_matches(vf.drop_first(), sf.drop_first())
    }
}

/// A value the encoder can render (byte buffers bounded so their base64
/// text fits in memory).
pub open spec fn model_wf(v: ValueModel) -> bool
    decreases v,
{
    match v {
        ValueModel::Scalar(s) => scalar_model_wf(s),
        ValueModel::Opt(o) => match o {
            Option::Some(b) => model_wf(*b),
            Option::None => true,
        },
        ValueModel::List(elems) => forall|i: int|
            0 <= i < elems.len() ==> scalar_model_wf(#[trigger] elems[i]),
        ValueModel::Arr(_) => true,
        ValueModel::Record(fields) => fields_wf(fields),
    }
}

pub open spec fn fields_wf(fields: Seq<(Seq<char>, ValueModel)>) -> bool
    decreases fields,
{
    fields.len() > 0 ==> (model_wf(fields.first().1) && fields_wf(fields.drop_first()))
}

pub open spec fn scalar_model_wf(s: ScalarModel) -> bool {
    match s {
        ScalarModel::Bytes(b) => b.len() <= 0x1000_0000_0000_0000,
        _ => true,
    }
}

/// The field models line up with the fields, one for one.
pub proof fn lemma_fields_model_at(fields: Seq<(String, Value)>)
    ensures
        fields_model(fields).len() == fields.len(),
        forall|i: int|
            0 <= i < fields.len() ==> #[trigger] fields_model(fields)[i] == (
                fields[i].0@,
                fields[i].1.model(),
            ),
    decreases fields,
{
    if fields.len() > 0 {
        lemma_fields_model_at(fields.drop_first());
        assert forall|i: int| 0 <= i < fields.len() implies #[trigger] fields_model(fields)[i]
            == (fields[i].0@, fields[i].1.model()) by {
            if i > 0 {
                assert(fields.drop_first()[i - 1] == fields[i]);
                assert(fields_model(fields)[i] == fields_model(fields.drop_first())[i - 1]);
            }
        }
    }
}

/// Appending a field appends its model.
pub proof fn lemma_fields_model_push(fields: Seq<(String, Value)>, f: (String, Value))
    ensures
        fields_model(fields.push(f)) =~= fields_model(fields).push((f.0@, f.1.model())),
{
    lemma_fields_model_at(fields);
    lemma_fields_model_at(fields.push(f));
    assert forall|i: int| 0 <= i < fields.len() + 1 implies #[trigger] fields_model(
        fields.push(f),
    )[i] == fields_model(fields).push((f.0@, f.1.model()))[i] by {
        if i < fields.len() {
            assert(fields.push(f)[i] == fields[i]);
        } else {
            assert(fields.push(f)[i] == f);
        }
    }
}

/// The shape field models line up with the fields, one for one.
pub proof fn lemma_shape_fields_model_at(fields: Seq<(String, Shape)>)
    ensures
        shape_fields_model(fields).len() == fields.len(),
        forall|i: int|
            0 <= i < fields.len() ==> #[trigger] shape_fields_model(fields)[i] == (
                fields[i].0@,
                fields[i].1.model(),
            ),
    decreases fields,
{
    if fields.len() > 0 {
        lemma_shape_fields_model_at(fields.drop_first());
        assert forall|i: int| 0 <= i < fields.len() implies #[trigger] shape_fields_model(
            fields,
        )[i] == (fields[i].0@, fields[i].1.model()) by {
            if i > 0 {
                assert(fields.drop_first()[i - 1] == fields[i]);
                assert(shape_fields_model(fields)[i] == shape_fields_model(
                    fields.drop_first(),
                )[i - 1]);
            }
        }
    }
}

/// Well-formed record fields are well-formed field by field.
pub proof fn lemma_fields_wf_at(fields: Seq<(Seq<char>, ValueModel)>)
    requires
        fields_wf(fields),
    ensures
        forall|i: int| 0 <= i < fields.len() ==> model_wf(#[trigger] fields[i].1),
    decreases fields,
{
    if fields.len() > 0 {
        lemma_fields_wf_at(fields.drop_first());
        assert forall|i: int| 0 <= i < fields.len() implies model_wf(#[trigger] fields[i].1) by {
            if i > 0 {
                assert(fields.drop_first()[i - 1] == fields[i]);
            }
        }
    }
}

/// Matching aligns a record with its shape field by field: same names,
/// each value matching its field's shape.
pub proof fn lemma_record_matches_names(
    vf: Seq<(Seq<char>, ValueModel)>,
    sf: Seq<(Seq<char>, ShapeModel)>,
)
    requires
        record_matches(vf, sf),
    ensures
        vf.len() == sf.len(),
        forall|i: int| #![trigger vf[i]]
            0 <= i < sf.len() ==> vf[i].0 == sf[i].0 && matches_shape(vf[i].1, sf[i].1),
    decreases sf,
{
    if sf.len() > 0 {
        lemma_record_matches_names(vf.drop_first(), sf.drop_first());
        assert forall|i: int| #![trigger vf[i]]
            0 <= i < sf.len() implies vf[i].0 == sf[i].0 && matches_shape(vf[i].1, sf[i].1) by {
            if i > 0 {
                assert(vf.drop_first()[i - 1] == vf[i]);
                assert(sf.drop_first()[i - 1] == sf[i]);
            }
        }
    }
}

/// The flattened key namespace of a record shape's fields: each
/// non-record field contributes its own name, and a nested record
/// contributes its fields' names in its place.
pub open spec fn fields_flat_names(fields: Seq<(Seq<char>, ShapeModel)>) -> Seq<Seq<char>>
    decreases fields,
{
    if fields.len() == 0 {
        seq![]
    } else {
        field_flat_names(fields.first().0, fields.first().1) + fields_flat_names(
            fields.drop_first(),
        )
    }
}

pub open spec fn field_flat_names(name: Seq<char>, s: ShapeModel) -> Seq<Seq<char>>
    decreases s,
{
    match s {
        ShapeModel::Record(sf) => fields_flat_names(sf),
        _ => seq![name],
    }
}

} // verus!
