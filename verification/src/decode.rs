//! The decoder: parses flat wire text into a field map once, then walks
//! the target shape, consuming values from the map as each field is
//! reconstructed.  Lookups are by name, so key order on the wire does not
//! matter; nested records look their fields up against the same map,
//! which is what makes flattening transparent.

use vstd::prelude::*;

use crate::array::{array_doc_error, json_strings_of, Array};
use crate::error::{leaf_error, Error, ErrorModel};
use crate::fieldmap::{spec_collect, FieldMap};
use crate::scalar::{
    decode_scalar, scalar_decode_error, spec_decode_scalar, Scalar, ScalarKind, ScalarModel,
};
use crate::text::{lemma_first_sep, lemma_first_sep_at, lemma_split_whole, spec_split, texts_model};
use crate::value::{
    fields_model, lemma_fields_model_push, lemma_shape_fields_model_at, shape_fields_model, Shape,
    ShapeModel, Value, ValueModel,
};

verus! {

// ------------------------------------------------------------------
// parsing the wire text into a field map
// ------------------------------------------------------------------

/// One chunk read as a `key=value` pair: it must split at `=` into
/// exactly two parts.
pub open spec fn chunk_pair(c: Seq<char>) -> Option<(Seq<char>, Seq<char>)> {
    let parts = spec_split(c, '=');
    if parts.len() == 2 {
        Option::Some((parts[0], parts[1]))
    } else {
        Option::None
    }
}

/// The pairs of well-formed chunks, in order.
pub open spec fn chunks_pairs(chunks: Seq<Seq<char>>) -> Seq<(Seq<char>, Seq<char>)> {
    Seq::new(chunks.len(), |i: int| chunk_pair(chunks[i])->Some_0)
}

/// What the wire text parses to: its `&`-chunks as pairs, or nothing
/// when some chunk is not exactly `key=value`.
pub open spec fn spec_parse_pairs(text: Seq<char>) -> Option<Seq<(Seq<char>, Seq<char>)>> {
    let chunks = spec_split(text, '&');
    if forall|i: int| 0 <= i < chunks.len() ==> chunk_pair(#[trigger] chunks[i]) is Some {
        Option::Some(chunks_pairs(chunks))
    } else {
        Option::None
    }
}

/// Splitting text that contains the separator yields at least two chunks.
proof fn lemma_split_two(t: Seq<char>, sep: char, i: int)
    requires
        0 <= i < t.len(),
        t[i] == sep,
    ensures
        spec_split(t, sep).len() >= 2,
{
    lemma_first_sep(t, sep);
    crate::text::lemma_split_not_empty(t.skip(first_sep_of(t, sep) + 1), sep);
}

/// A name for `first_sep` usable in this module's proofs.
spec fn first_sep_of(t: Seq<char>, sep: char) -> int {
    crate::text::first_sep(t, sep)
}

/// What decoding a sequence's elements yields.
pub type ElemsResult = Result<Seq<ScalarModel>, ErrorModel>;

/// What decoding one field yields: the value and the remaining map.
pub type FieldResult = Result<(ValueModel, Map<Seq<char>, Seq<Seq<char>>>), ErrorModel>;

/// What decoding a record's fields yields: the fields and the remaining
/// map.
pub type RecordResult = Result<
    (Seq<(Seq<char>, ValueModel)>, Map<Seq<char>, Seq<Seq<char>>>),
    ErrorModel,
>;

// ------------------------------------------------------------------
// spec-level decoding
// ------------------------------------------------------------------

/// Decoding the elements of a repeated-key sequence: each stored value
/// becomes one element of the requested kind; the first value that does
/// not decode fails the whole list with its own error.
pub open spec fn sd_elems(k: ScalarKind, vals: Seq<Seq<char>>) -> Result<Seq<ScalarModel>, ErrorModel>
    decreases vals,
{
    if vals.len() == 0 {
        Result::Ok(seq![])
    } else {
        match spec_decode_scalar(k, vals.first()) {
            Option::Some(sc) => match sd_elems(k, vals.drop_first()) {
                Result::Ok(rest) => Result::Ok(seq![sc] + rest),
                Result::Err(e) => Result::Err(e),
            },
            Option::None => Result::Err(scalar_decode_error(k, vals.first())),
        }
    }
}

/// Decoding one named field out of the map.  A scalar or array field
/// requires its key and consumes it whole, reading the first value; an
/// optional field is absent without error when its key is absent; a
/// sequence field turns the key's whole value list into its elements, an
/// absent key meaning the empty sequence; a nested record ignores the
/// field's own key and reads its fields from the same map.
pub open spec fn sd_field(
    m: Map<Seq<char>, Seq<Seq<char>>>,
    name: Seq<char>,
    shape: ShapeModel,
) -> Result<(ValueModel, Map<Seq<char>, Seq<Seq<char>>>), ErrorModel>
    decreases shape,
{
    match shape {
        ShapeModel::Scalar(k) => if m.dom().contains(name) && m[name].len() > 0 {
            match spec_decode_scalar(k, m[name][0]) {
                Option::Some(sc) => Result::Ok((ValueModel::Scalar(sc), m.remove(name))),
                Option::None => Result::Err(scalar_decode_error(k, m[name][0])),
            }
        } else {
            Result::Err(leaf_error("no value"@))
        },
        ShapeModel::Opt(inner) => if m.dom().contains(name) {
            if m[name].len() > 0 {
                match sd_vals(m.remove(name), m[name], *inner) {
                    Result::Ok((vm, m2)) => Result::Ok(
                        (ValueModel::Opt(Option::Some(Box::new(vm))), m2),
                    ),
                    Result::Err(e) => Result::Err(e),
                }
            } else {
                Result::Ok((ValueModel::Opt(Option::None), m.remove(name)))
            }
        } else {
            Result::Ok((ValueModel::Opt(Option::None), m))
        },
        ShapeModel::List(k) => if m.dom().contains(name) {
            match sd_elems(k, m[name]) {
                Result::Ok(scs) => Result::Ok((ValueModel::List(scs), m.remove(name))),
                Result::Err(e) => Result::Err(e),
            }
        } else {
            Result::Ok((ValueModel::List(seq![]), m))
        },
        ShapeModel::Arr => if m.dom().contains(name) && m[name].len() > 0 {
            match json_strings_of(m[name][0]) {
                Option::Some(texts) => Result::Ok((ValueModel::Arr(texts), m.remove(name))),
                Option::None => Result::Err(array_doc_error(m[name][0])),
            }
        } else {
            Result::Err(leaf_error("no value"@))
        },
        ShapeModel::Record(sf) => match sd_record(m, sf) {
            Result::Ok((fields, m2)) => Result::Ok((ValueModel::Record(fields), m2)),
            Result::Err(e) => Result::Err(e),
        },
    }
}

/// Decoding the wrapped value of a present optional from the values that
/// stood at its key, the key itself already consumed.
pub open spec fn sd_vals(
    m: Map<Seq<char>, Seq<Seq<char>>>,
    vals: Seq<Seq<char>>,
    shape: ShapeModel,
) -> Result<(ValueModel, Map<Seq<char>, Seq<Seq<char>>>), ErrorModel>
    decreases shape,
{
    match shape {
        ShapeModel::Scalar(k) => if vals.len() > 0 {
            match spec_decode_scalar(k, vals[0]) {
                Option::Some(sc) => Result::Ok((ValueModel::Scalar(sc), m)),
                Option::None => Result::Err(scalar_decode_error(k, vals[0])),
            }
        } else {
            Result::Err(leaf_error("no value"@))
        },
        ShapeModel::Opt(inner) => if vals.len() > 0 {
            match sd_vals(m, vals, *inner) {
                Result::Ok((vm, m2)) => Result::Ok(
                    (ValueModel::Opt(Option::Some(Box::new(vm))), m2),
                ),
                Result::Err(e) => Result::Err(e),
            }
        } else {
            Result::Ok((ValueModel::Opt(Option::None), m))
        },
        ShapeModel::List(k) => match sd_elems(k, vals) {
            Result::Ok(scs) => Result::Ok((ValueModel::List(scs), m)),
            Result::Err(e) => Result::Err(e),
        },
        ShapeModel::Arr => if vals.len() > 0 {
            match json_strings_of(vals[0]) {
                Option::Some(texts) => Result::Ok((ValueModel::Arr(texts), m)),
                Option::None => Result::Err(array_doc_error(vals[0])),
            }
        } else {
            Result::Err(leaf_error("no value"@))
        },
        ShapeModel::Record(sf) => match sd_record(m, sf) {
            Result::Ok((fields, m2)) => Result::Ok((ValueModel::Record(fields), m2)),
            Result::Err(e) => Result::Err(e),
        },
    }
}

/// Decoding a record's fields in order, threading the remaining map
/// through: each field consumes what it reads.  When two fields anywhere
/// in the flattened namespace share a name, the first to be decoded
/// consumes the key and a later one finds it absent: the first reader
/// wins.
pub open spec fn sd_record(
    m: Map<Seq<char>, Seq<Seq<char>>>,
    sf: Seq<(Seq<char>, ShapeModel)>,
) -> Result<(Seq<(Seq<char>, ValueModel)>, Map<Seq<char>, Seq<Seq<char>>>), ErrorModel>
    decreases sf,
{
    if sf.len() == 0 {
        Result::Ok((seq![], m))
    } else {
        match sd_field(m, sf.first().0, sf.first().1) {
            Result::Ok((vm, m2)) => match sd_record(m2, sf.drop_first()) {
                Result::Ok((rest, m3)) => Result::Ok((seq![(sf.first().0, vm)] + rest, m3)),
                Result::Err(e) => Result::Err(e),
            },
            Result::Err(e) => Result::Err(e),
        }
    }
}

// ------------------------------------------------------------------
// executable decoding
// ------------------------------------------------------------------

/// Builds the error value for a key the shape requires but the map does
/// not hold.
fn no_value_error() -> (e: Error)
    ensures
        e.model() == leaf_error("no value"@),
{
    let e = Error::new("no value", Option::None);
    proof {
        assert(e.model() == leaf_error("no value"@));
    }
    e
}

/// Decodes every stored value of a repeated key as one element.
fn decode_elems(k: ScalarKind, vals: &Vec<String>) -> (r: Result<Vec<Scalar>, Error>)
    ensures
        match r {
            Result::Ok(scs) => sd_elems(k, texts_model(vals@)) == ElemsResult::Ok(
                scs@.map_values(|sc: Scalar| sc.model()),
            ),
            Result::Err(e) => sd_elems(k, texts_model(vals@)) == ElemsResult::Err(e.model()),
        },
{
    let ghost texts = texts_model(vals@);
    let mut out: Vec<Scalar> = Vec::new();
    let n = vals.len();
    let mut i: usize = 0;
    proof {
        assert(texts.skip(0) =~= texts);
        assert(out@.map_values(|sc: Scalar| sc.model()) =~= Seq::<ScalarModel>::empty());
        let r0 = sd_elems(k, texts);
        if r0 is Ok {
            assert(Seq::<ScalarModel>::empty() + r0->Ok_0 =~= r0->Ok_0);
        }
    }
    while i < n
        invariant
            0 <= i <= n,
            n == vals@.len(),
            texts == texts_model(vals@),
            texts.len() == n,
            match sd_elems(k, texts.skip(i as int)) {
                Result::Ok(rest) => sd_elems(k, texts) == ElemsResult::Ok(
                    out@.map_values(|sc: Scalar| sc.model()) + rest,
                ),
                Result::Err(e) => sd_elems(k, texts) == ElemsResult::Err(e),
            },
        decreases n - i,
    {
        let ghost prev = out@;
        proof {
            assert(texts.skip(i as int).first() == texts[i as int]);
            assert(texts[i as int] == vals@[i as int]@);
            assert(texts.skip(i as int).drop_first() =~= texts.skip(i as int + 1));
        }
        match decode_scalar(k, vals[i].as_str()) {
            Result::Ok(sc) => {
                out.push(sc);
                proof {
                    assert(out@.map_values(|sc: Scalar| sc.model()) =~= prev.map_values(
                        |sc: Scalar| sc.model(),
                    ).push(sc.model()));
                    let r2 = sd_elems(k, texts.skip(i as int + 1));
                    if r2 is Ok {
                        assert(prev.map_values(|sc: Scalar| sc.model()) + (seq![sc.model()]
                            + r2->Ok_0) =~= out@.map_values(|sc: Scalar| sc.model()) + r2->Ok_0);
                    }
                }
            },
            Result::Err(e) => {
                return Result::Err(e);
            },
        }
        i = i + 1;
    }
    proof {
        assert(texts.skip(n as int) =~= Seq::<Seq<char>>::empty());
        assert(out@.map_values(|sc: Scalar| sc.model()) + Seq::<ScalarModel>::empty()
            =~= out@.map_values(|sc: Scalar| sc.model()));
    }
    Result::Ok(out)
}

/// Decodes one named field, consuming what it reads from the map.
fn decode_field(m: &mut FieldMap, name: &str, shape: &Shape) -> (r: Result<Value, Error>)
    requires
        old(m).wf(),
    ensures
        final(m).wf(),
        match r {
            Result::Ok(v) => sd_field(old(m)@, name@, shape.model()) == FieldResult::Ok(
                (v.model(), final(m)@),
            ),
            Result::Err(e) => sd_field(old(m)@, name@, shape.model()) == FieldResult::Err(e.model()),
        },
    decreases *shape,
{
    match shape {
        Shape::Scalar(k) => {
            match m.remove_key(name) {
                Option::Some(vals) => {
                    if vals.len() == 0 {
                        Result::Err(no_value_error())
                    } else {
                        proof {
                            assert(texts_model(vals@)[0] == vals@[0]@);
                        }
                        match decode_scalar(*k, vals[0].as_str()) {
                            Result::Ok(sc) => Result::Ok(Value::Scalar(sc)),
                            Result::Err(e) => Result::Err(e),
                        }
                    }
                },
                Option::None => Result::Err(no_value_error()),
            }
        },
        Shape::Opt(inner) => {
            match m.remove_key(name) {
                Option::Some(vals) => {
                    if vals.len() == 0 {
                        Result::Ok(Value::Opt(Option::None))
                    } else {
                        match decode_vals(m, &vals, inner) {
                            Result::Ok(v) => Result::Ok(
                                Value::Opt(Option::Some(Box::new(v))),
                            ),
                            Result::Err(e) => Result::Err(e),
                        }
                    }
                },
                Option::None => Result::Ok(Value::Opt(Option::None)),
            }
        },
        Shape::List(k) => {
            match m.remove_key(name) {
                Option::Some(vals) => {
                    match decode_elems(*k, &vals) {
                        Result::Ok(scs) => Result::Ok(Value::List(scs)),
                        Result::Err(e) => Result::Err(e),
                    }
                },
                Option::None => {
                    let empty: Vec<Scalar> = Vec::new();
                    proof {
                        assert(empty@.map_values(|sc: Scalar| sc.model())
                            =~= Seq::<ScalarModel>::empty());
                    }
                    Result::Ok(Value::List(empty))
                },
            }
        },
        Shape::Arr => {
            match m.remove_key(name) {
                Option::Some(vals) => {
                    if vals.len() == 0 {
                        Result::Err(no_value_error())
                    } else {
                        proof {
                            assert(texts_model(vals@)[0] == vals@[0]@);
                        }
                        match Array::deserialize(vals[0].as_str()) {
                            Result::Ok(a) => Result::Ok(Value::Arr(a)),
                            Result::Err(e) => Result::Err(e),
                        }
                    }
                },
                Option::None => Result::Err(no_value_error()),
            }
        },
        Shape::Record(sf) => {
            proof {
                assert(decreases_to!(*shape => sf@));
            }
            match decode_record(sf, m) {
                Result::Ok(fields) => Result::Ok(Value::Record(fields)),
                Result::Err(e) => Result::Err(e),
            }
        },
    }
}

/// Decodes a present optional's wrapped value from the values taken at
/// its key.
fn decode_vals(m: &mut FieldMap, vals: &Vec<String>, shape: &Shape) -> (r: Result<Value, Error>)
    requires
        old(m).wf(),
    ensures
        final(m).wf(),
        match r {
            Result::Ok(v) => sd_vals(old(m)@, texts_model(vals@), shape.model()) == FieldResult::Ok(
                (v.model(), final(m)@),
            ),
            Result::Err(e) => sd_vals(old(m)@, texts_model(vals@), shape.model()) == FieldResult::Err(
                e.model(),
            ),
        },
    decreases *shape,
{
    match shape {
        Shape::Scalar(k) => {
            if vals.len() == 0 {
                Result::Err(no_value_error())
            } else {
                proof {
                    assert(texts_model(vals@)[0] == vals@[0]@);
                }
                match decode_scalar(*k, vals[0].as_str()) {
                    Result::Ok(sc) => Result::Ok(Value::Scalar(sc)),
                    Result::Err(e) => Result::Err(e),
                }
            }
        },
        Shape::Opt(inner) => {
            if vals.len() == 0 {
                Result::Ok(Value::Opt(Option::None))
            } else {
                match decode_vals(m, vals, inner) {
                    Result::Ok(v) => Result::Ok(Value::Opt(Option::Some(Box::new(v)))),
                    Result::Err(e) => Result::Err(e),
                }
            }
        },
        Shape::List(k) => {
            match decode_elems(*k, vals) {
                Result::Ok(scs) => Result::Ok(Value::List(scs)),
                Result::Err(e) => Result::Err(e),
            }
        },
        Shape::Arr => {
            if vals.len() == 0 {
                Result::Err(no_value_error())
            } else {
                proof {
                    assert(texts_model(vals@)[0] == vals@[0]@);
                }
                match Array::deserialize(vals[0].as_str()) {
                    Result::Ok(a) => Result::Ok(Value::Arr(a)),
                    Result::Err(e) => Result::Err(e),
                }
            }
        },
        Shape::Record(sf) => {
            proof {
                assert(decreases_to!(*shape => sf@));
            }
            match decode_record(sf, m) {
                Result::Ok(fields) => Result::Ok(Value::Record(fields)),
                Result::Err(e) => Result::Err(e),
            }
        },
    }
}

/// Decodes a record's fields in declared order, each consuming what it
/// reads; the same map serves nested records, so flattened fields are
/// found wherever they stand.
fn decode_record(fields: &Vec<(String, Shape)>, m: &mut FieldMap) -> (r: Result<
    Vec<(String, Value)>,
    Error,
>)
    requires
        old(m).wf(),
    ensures
        final(m).wf(),
        match r {
            Result::Ok(vals) => sd_record(old(m)@, shape_fields_model(fields@)) == RecordResult::Ok(
                (fields_model(vals@), final(m)@),
            ),
            Result::Err(e) => sd_record(old(m)@, shape_fields_model(fields@)) == RecordResult::Err(
                e.model(),
            ),
        },
    decreases fields@,
{
    let ghost sfm = shape_fields_model(fields@);
    proof {
        lemma_shape_fields_model_at(fields@);
    }
    let mut out: Vec<(String, Value)> = Vec::new();
    let n = fields.len();
    let mut i: usize = 0;
    proof {
        assert(sfm.skip(0) =~= sfm);
        assert(fields_model(out@) =~= Seq::<(Seq<char>, ValueModel)>::empty());
        let r0 = sd_record(m@, sfm);
        if r0 is Ok {
            assert(fields_model(out@) + r0->Ok_0.0 =~= r0->Ok_0.0);
        }
    }
    while i < n
        invariant
            0 <= i <= n,
            n == fields@.len(),
            m.wf(),
            sfm == shape_fields_model(fields@),
            sfm.len() == n,
            forall|j: int|
                0 <= j < n ==> #[trigger] sfm[j] == (fields@[j].0@, fields@[j].1.model()),
            match sd_record(m@, sfm.skip(i as int)) {
                Result::Ok((rest, mf)) => sd_record(old(m)@, sfm) == RecordResult::Ok(
                    (fields_model(out@) + rest, mf),
                ),
                Result::Err(e) => sd_record(old(m)@, sfm) == RecordResult::Err(e),
            },
        decreases n - i,
    {
        let ghost m_before = m@;
        proof {
            assert(decreases_to!(fields@ => fields@[i as int].1));
            assert(sfm.skip(i as int).first() == sfm[i as int]);
        }
        let r = decode_field(m, fields[i].0.as_str(), &fields[i].1);
        match r {
            Result::Ok(v) => {
                let ghost prev = out@;
                out.push((fields[i].0.clone(), v));
                proof {
                    assert(sfm.skip(i as int).drop_first() =~= sfm.skip(i as int + 1));
                    lemma_fields_model_push(prev, (fields@[i as int].0, v));
                    assert(fields_model(out@) =~= fields_model(prev).push(
                        (fields@[i as int].0@, v.model()),
                    ));
                    match sd_record(m@, sfm.skip(i as int + 1)) {
                        Result::Ok((rest2, mf2)) => {
                            assert(sd_record(m_before, sfm.skip(i as int)) == RecordResult::Ok(
                                (seq![(sfm[i as int].0, v.model())] + rest2, mf2),
                            ));
                            assert(fields_model(out@) + rest2 =~= fields_model(prev) + (seq![
                                (sfm[i as int].0, v.model()),
                            ] + rest2));
                        },
                        Result::Err(e2) => {
                            assert(sd_record(m_before, sfm.skip(i as int)) == RecordResult::Err(e2));
                        },
                    }
                }
            },
            Result::Err(e) => {
                proof {
                    assert(sd_record(m_before, sfm.skip(i as int)) == RecordResult::Err(e.model()));
                }
                return Result::Err(e);
            },
        }
        i = i + 1;
    }
    proof {
        assert(sfm.skip(n as int) =~= Seq::<(Seq<char>, ShapeModel)>::empty());
        assert(fields_model(out@) + Seq::<(Seq<char>, ValueModel)>::empty() =~= fields_model(
            out@,
        ));
    }
    Result::Ok(out)
}

// ------------------------------------------------------------------
// the deserializer
// ------------------------------------------------------------------

/// The decoder's state: the field map built once from the wire text.
#[derive(Debug)]
pub struct Deserializer {
    map: FieldMap,
}

impl View for Deserializer {
    type V = Map<Seq<char>, Seq<Seq<char>>>;

    closed spec fn view(&self) -> Map<Seq<char>, Seq<Seq<char>>> {
        self.map@
    }
}

impl Deserializer {
    pub closed spec fn wf(self) -> bool {
        self.map.wf()
    }

    /// Parses the wire text into the field map: chunks split at `&`,
    /// each chunk split at `=` into exactly two parts, values of a
    /// repeated key accumulating in arrival order.  A chunk that is not
    /// exactly `key=value` is a fatal parse error named `invalid pair`,
    /// with no cause.
    pub fn try_from_str(s: &str) -> (r: Result<Deserializer, Error>)
        ensures
            match r {
                Result::Ok(d) => spec_parse_pairs(s@) matches Option::Some(pairs) && d@
                    == spec_collect(pairs) && d.wf(),
                Result::Err(e) => spec_parse_pairs(s@) is None && e.model() == leaf_error(
                    "invalid pair"@,
                ),
            },
    {
        let ghost chunks = spec_split(s@, '&');
        let n = s.unicode_len();
        let mut map = FieldMap::new();
        let mut start: usize = 0;
        let ghost mut k: int = 0;
        proof {
            assert(s@.skip(0) =~= s@);
            assert(chunks.take(0) + spec_split(s@, '&') =~= chunks);
            assert(chunks_pairs(chunks.take(0)).len() == 0);
            assert(spec_collect(chunks_pairs(chunks.take(0))) =~= Map::<
                Seq<char>,
                Seq<Seq<char>>,
            >::empty());
        }
        loop
            invariant
                0 <= start <= n,
                n == s@.len(),
                map.wf(),
                chunks == spec_split(s@, '&'),
                0 <= k <= chunks.len(),
                chunks =~= chunks.take(k) + spec_split(s@.skip(start as int), '&'),
                forall|j: int| 0 <= j < k ==> chunk_pair(#[trigger] chunks[j]) is Some,
                map@ == spec_collect(chunks_pairs(chunks.take(k))),
            decreases n - start,
        {
            let ghost tail = s@.skip(start as int);
            // find the end of the current chunk
            let mut e: usize = start;
            while e < n && s.get_char(e) != '&'
                invariant
                    start <= e <= n,
                    n == s@.len(),
                    forall|j: int| start <= j < e ==> s@[j] != '&',
                decreases n - e,
            {
                e = e + 1;
            }
            proof {
                assert forall|j: int| 0 <= j < e - start implies tail[j] != '&' by {
                    assert(tail[j] == s@[start + j]);
                }
                if e < n {
                    assert(tail[e - start] == s@[e as int]);
                }
                lemma_first_sep_at(tail, '&', e - start);
            }
            let ghost chunk = tail.take(e - start);
            proof {
                if e == n {
                    assert(tail =~= chunk);
                    assert(spec_split(tail, '&') == seq![chunk]);
                } else {
                    assert(spec_split(tail, '&') == seq![chunk] + spec_split(
                        tail.skip(e - start + 1),
                        '&',
                    ));
                }
                assert(chunks[k] == chunk);
            }
            // find the key/value separator inside the chunk
            let mut p: usize = start;
            while p < e && s.get_char(p) != '='
                invariant
                    start <= p <= e <= n,
                    n == s@.len(),
                    forall|j: int| start <= j < p ==> s@[j] != '=',
                decreases e - p,
            {
                p = p + 1;
            }
            if p == e {
                // no `=` in the chunk
                proof {
                    assert forall|j: int| 0 <= j < chunk.len() implies chunk[j] != '=' by {
                        assert(chunk[j] == s@[start + j]);
                    }
                    lemma_split_whole(chunk, '=');
                    assert(chunk_pair(chunk) is None);
                    assert(spec_parse_pairs(s@) is None);
                }
                let e = Error::new("invalid pair", Option::None);
                proof {
                    assert(e.model() == leaf_error("invalid pair"@));
                }
                return Result::Err(e);
            }
            // check there is no second `=`
            let mut q: usize = p + 1;
            while q < e && s.get_char(q) != '='
                invariant
                    p < q <= e <= n,
                    n == s@.len(),
                    forall|j: int| p < j < q ==> s@[j] != '=',
                decreases e - q,
            {
                q = q + 1;
            }
            if q < e {
                // a second `=`: the chunk has three or more parts
                proof {
                    assert(chunk[p - start] == s@[p as int]);
                    assert forall|j: int| 0 <= j < p - start implies chunk[j] != '=' by {
                        assert(chunk[j] == s@[start + j]);
                    }
                    lemma_first_sep_at(chunk, '=', p - start);
                    let rest = chunk.skip(p - start + 1);
                    assert(rest[q - p - 1] == s@[q as int]);
                    lemma_split_two(rest, '=', q - p - 1);
                    assert(spec_split(chunk, '=').len() >= 3);
                    assert(chunk_pair(chunk) is None);
                    assert(spec_parse_pairs(s@) is None);
                }
                let e = Error::new("invalid pair", Option::None);
                proof {
                    assert(e.model() == leaf_error("invalid pair"@));
                }
                return Result::Err(e);
            }
            // exactly one `=`: commit the pair
            let key = s.substring_char(start, p).to_owned();
            let val = s.substring_char(p + 1, e).to_owned();
            proof {
                let kp = chunk.take(p - start);
                let vp = chunk.skip(p - start + 1);
                assert(key@ =~= kp);
                assert(val@ =~= vp);
                assert(chunk =~= kp + seq!['='] + vp);
                assert forall|j: int| 0 <= j < kp.len() implies kp[j] != '=' by {
                    assert(kp[j] == s@[start + j]);
                }
                assert forall|j: int| 0 <= j < vp.len() implies vp[j] != '=' by {
                    assert(vp[j] == s@[p + 1 + j]);
                }
                lemma_split_whole(kp, '=');
                lemma_split_whole(vp, '=');
                crate::text::lemma_split_concat(kp, vp, '=');
                assert(spec_split(chunk, '=') =~= seq![kp, vp]);
                assert(chunk_pair(chunk) == Option::Some((kp, vp)));
            }
            map.push_value(key.as_str(), val);
            proof {
                assert(chunks.take(k + 1) =~= chunks.take(k).push(chunk));
                assert(chunks_pairs(chunks.take(k + 1)) =~= chunks_pairs(chunks.take(k)).push(
                    (key@, val@),
                ));
                assert(chunks_pairs(chunks.take(k + 1)).drop_last() =~= chunks_pairs(
                    chunks.take(k),
                ));
                assert(map@ == spec_collect(chunks_pairs(chunks.take(k + 1))));
            }
            if e == n {
                proof {
                    assert(chunks.take(k + 1) =~= chunks);
                    assert forall|j: int| 0 <= j < chunks.len() implies chunk_pair(
                        #[trigger] chunks[j],
                    ) is Some by {}
                    assert(spec_parse_pairs(s@) == Option::Some(chunks_pairs(chunks)));
                }
                return Result::Ok(Deserializer { map });
            }
            proof {
                assert(tail.skip(e - start + 1) =~= s@.skip(e + 1));
                assert(chunks =~= chunks.take(k + 1) + spec_split(s@.skip(e + 1), '&'));
                k = k + 1;
            }
            start = e + 1;
        }
    }

    /// Reconstructs a record-shaped value, consuming the map; leftover
    /// keys that the shape never asks for are ignored.
    pub fn deserialize(&mut self, shape: &Shape) -> (r: Result<Value, Error>)
        requires
            old(self).wf(),
        ensures
            final(self).wf(),
            match r {
                Result::Ok(v) => shape.model() matches ShapeModel::Record(sf) && sd_record(
                    old(self)@,
                    sf,
                ) matches Result::Ok(p) && p.1 == final(self)@ && v.model()
                    == ValueModel::Record(p.0),
                Result::Err(e) => {
                    &&& shape.model() matches ShapeModel::Record(sf) ==> sd_record(
                        old(self)@,
                        sf,
                    ) == RecordResult::Err(e.model())
                    &&& !(shape.model() is Record) ==> e.model() == leaf_error(
                        "top-level shape must be a record"@,
                    )
                },
            },
    {
        match shape {
            Shape::Record(sf) => {
                match decode_record(sf, &mut self.map) {
                    Result::Ok(fields) => Result::Ok(Value::Record(fields)),
                    Result::Err(e) => Result::Err(e),
                }
            },
            _ => {
                let e = Error::new("top-level shape must be a record", Option::None);
                proof {
                    assert(e.model() == leaf_error("top-level shape must be a record"@));
                }
                Result::Err(e)
            },
        }
    }
}

/// Decodes flat wire text into a value of the given record shape: the
/// text is parsed into the field map once, then the shape's fields drive
/// reconstruction, in any key order.
pub fn from_str(shape: &Shape, s: &str) -> (r: Result<Value, Error>)
    ensures
        match r {
            Result::Ok(v) => {
                &&& spec_parse_pairs(s@) matches Option::Some(pairs)
                &&& shape.model() matches ShapeModel::Record(sf)
                &&& sd_record(spec_collect(spec_parse_pairs(s@)->Some_0), sf) matches Result::Ok(
                    p,
                ) && v.model() == ValueModel::Record(p.0)
            },
            Result::Err(e) => {
                &&& spec_parse_pairs(s@) is None ==> e.model() == leaf_error("invalid pair"@)
                &&& spec_parse_pairs(s@) matches Option::Some(pairs) ==> {
                    &&& !(shape.model() is Record) ==> e.model() == leaf_error(
                        "top-level shape must be a record"@,
                    )
                    &&& shape.model() matches ShapeModel::Record(sf) ==> sd_record(
                        spec_collect(pairs),
                        sf,
                    ) == RecordResult::Err(e.model())
                }
            },
        },
{
    match Deserializer::try_from_str(s) {
        Result::Ok(mut d) => d.deserialize(shape),
        Result::Err(e) => Result::Err(e),
    }
}

} // verus!
