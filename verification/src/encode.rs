//! The encoder: walks a structured value and emits the flat wire text,
//! honoring field order and omitting absent optionals.  A field's pair is
//! buffered only once a present value is confirmed, so nothing written
//! has to be erased.

use vstd::prelude::*;

use crate::array::json_text_of;
use crate::error::{leaf_error, Error};
use crate::scalar::{scalar_text, scalar_to_text, Scalar};
use crate::text::spec_join;
use crate::value::{
    fields_model, lemma_fields_model_at, lemma_fields_wf_at, model_wf, Value, ValueModel,
};

verus! {

/// The `key=value` pairs one field contributes to the wire text: one pair
/// for a scalar, none for an absent optional, the wrapped value's pairs
/// for a present one, one pair per element of a repeated-key sequence,
/// one sub-document pair for an array wrapper, and the fields' own pairs
/// for a nested record, flattened into place.
pub open spec fn field_pairs(name: Seq<char>, v: ValueModel) -> Seq<(Seq<char>, Seq<char>)>
    decreases v,
{
    match v {
        ValueModel::Scalar(s) => seq![(name, scalar_text(s))],
        ValueModel::Opt(o) => match o {
            Option::Some(b) => field_pairs(name, *b),
            Option::None => seq![],
        },
        ValueModel::List(elems) => Seq::new(elems.len(), |i: int| (name, scalar_text(elems[i]))),
        ValueModel::Arr(texts) => seq![(name, json_text_of(texts))],
        ValueModel::Record(fields) => record_pairs(fields),
    }
}

/// The pairs of a record's fields, in declared order.
pub open spec fn record_pairs(fields: Seq<(Seq<char>, ValueModel)>) -> Seq<(Seq<char>, Seq<char>)>
    decreases fields,
{
    if fields.len() == 0 {
        seq![]
    } else {
        field_pairs(fields.first().0, fields.first().1) + record_pairs(fields.drop_first())
    }
}

/// Appending a field appends its pairs.
pub proof fn lemma_record_pairs_push(fields: Seq<(Seq<char>, ValueModel)>, f: (Seq<char>, ValueModel))
    ensures
        record_pairs(fields.push(f)) == record_pairs(fields) + field_pairs(f.0, f.1),
    decreases fields,
{
    if fields.len() == 0 {
        assert(fields.push(f).first() == f);
        assert(fields.push(f).drop_first() =~= Seq::<(Seq<char>, ValueModel)>::empty());
        assert(record_pairs(fields.push(f)) == field_pairs(f.0, f.1) + record_pairs(
            Seq::<(Seq<char>, ValueModel)>::empty(),
        ));
        assert(record_pairs(fields.push(f)) =~= record_pairs(fields) + field_pairs(f.0, f.1));
    } else {
        assert(fields.push(f).first() == fields.first());
        assert(fields.push(f).drop_first() =~= fields.drop_first().push(f));
        lemma_record_pairs_push(fields.drop_first(), f);
        assert(record_pairs(fields.push(f)) =~= record_pairs(fields) + field_pairs(f.0, f.1));
    }
}

/// One pair as wire text: `key=value`.
pub open spec fn pair_text(p: (Seq<char>, Seq<char>)) -> Seq<char> {
    p.0 + seq!['='] + p.1
}

/// The wire text of a pair list: the pairs' texts joined with `&`.
pub open spec fn render_pairs(pairs: Seq<(Seq<char>, Seq<char>)>) -> Seq<char> {
    spec_join(pairs.map_values(|p: (Seq<char>, Seq<char>)| pair_text(p)), '&')
}

/// The committed pairs as character sequences.
pub open spec fn pairs_view(s: Seq<(String, String)>) -> Seq<(Seq<char>, Seq<char>)> {
    s.map_values(|p: (String, String)| (p.0@, p.1@))
}

/// Emits the pairs of one field into the buffer.  Encoding cannot fail:
/// the one external call, the array sub-codec, always succeeds on an
/// array of strings.
fn encode_field(name: &str, v: &Value, out: &mut Vec<(String, String)>)
    requires
        model_wf(v.model()),
    ensures
        pairs_view(final(out)@) == pairs_view(old(out)@) + field_pairs(name@, v.model()),
    decreases *v,
{
    match v {
        Value::Scalar(sc) => {
            proof {
                assert(sc.wf());
            }
            let t = scalar_to_text(sc);
            out.push((name.to_owned(), t));
            proof {
                assert(pairs_view(out@) =~= pairs_view(old(out)@) + field_pairs(
                    name@,
                    v.model(),
                ));
            }
        },
        Value::Opt(o) => match o {
            Option::Some(b) => {
                encode_field(name, b, out);
            },
            Option::None => {
                proof {
                    assert(pairs_view(out@) =~= pairs_view(old(out)@) + field_pairs(
                        name@,
                        v.model(),
                    ));
                }
            },
        },
        Value::List(elems) => {
            let ghost target = field_pairs(name@, v.model());
            let ghost em = elems@.map_values(|sc: Scalar| sc.model());
            let n = elems.len();
            let mut i: usize = 0;
            while i < n
                invariant
                    0 <= i <= n,
                    n == elems@.len(),
                    em == elems@.map_values(|sc: Scalar| sc.model()),
                    target == Seq::new(em.len(), |j: int| (name@, scalar_text(em[j]))),
                    forall|j: int| 0 <= j < n ==> crate::value::scalar_model_wf(#[trigger] em[j]),
                    pairs_view(out@) =~= pairs_view(old(out)@) + target.take(i as int),
                decreases n - i,
            {
                proof {
                    assert(em[i as int] == elems@[i as int].model());
                    assert(elems@[i as int].wf());
                }
                let t = scalar_to_text(&elems[i]);
                let ghost prev = out@;
                out.push((name.to_owned(), t));
                proof {
                    assert(pairs_view(out@) =~= pairs_view(prev).push((name@, t@)));
                    assert(target[i as int] == (name@, scalar_text(em[i as int])));
                    assert(target.take(i as int + 1) =~= target.take(i as int).push(
                        target[i as int],
                    ));
                    assert(pairs_view(out@) =~= pairs_view(old(out)@) + target.take(i as int + 1));
                }
                i = i + 1;
            }
            proof {
                assert(target.take(n as int) =~= target);
            }
        },
        Value::Arr(a) => {
            let doc = match a.serialize() {
                Result::Ok(doc) => doc,
                Result::Err(_) => unreached(),
            };
            out.push((name.to_owned(), doc));
            proof {
                assert(pairs_view(out@) =~= pairs_view(old(out)@) + field_pairs(
                    name@,
                    v.model(),
                ));
            }
        },
        Value::Record(fields) => {
            encode_record(fields, out);
        },
    }
}

/// Emits the pairs of a record's fields, in declared order; the fields
/// flatten into the same buffer with no prefixing.
fn encode_record(fields: &Vec<(String, Value)>, out: &mut Vec<(String, String)>)
    requires
        crate::value::fields_wf(fields_model(fields@)),
    ensures
        pairs_view(final(out)@) == pairs_view(old(out)@) + record_pairs(fields_model(fields@)),
    decreases fields@,
{
    let ghost fm = fields_model(fields@);
    proof {
        lemma_fields_model_at(fields@);
        lemma_fields_wf_at(fm);
    }
    let n = fields.len();
    let mut i: usize = 0;
    while i < n
        invariant
            0 <= i <= n,
            n == fields@.len(),
            fm == fields_model(fields@),
            fm.len() == n,
            forall|j: int|
                0 <= j < n ==> #[trigger] fm[j] == (fields@[j].0@, fields@[j].1.model()),
            forall|j: int| 0 <= j < n ==> model_wf(#[trigger] fm[j].1),
            pairs_view(out@) =~= pairs_view(old(out)@) + record_pairs(fm.take(i as int)),
        decreases n - i,
    {
        proof {
            assert(decreases_to!(fields@ => fields@[i as int].1));
            assert(model_wf(fm[i as int].1));
            assert(fm[i as int] == (fields@[i as int].0@, fields@[i as int].1.model()));
            assert(fm[i as int].1 == fields@[i as int].1.model());
            assert(model_wf(fields@[i as int].1.model()));
        }
        encode_field(fields[i].0.as_str(), &fields[i].1, out);
        proof {
            assert(fm.take(i as int + 1) =~= fm.take(i as int).push(fm[i as int]));
            lemma_record_pairs_push(fm.take(i as int), fm[i as int]);
            assert(pairs_view(out@) =~= pairs_view(old(out)@) + record_pairs(
                fm.take(i as int + 1),
            ));
        }
        i = i + 1;
    }
    proof {
        assert(fm.take(n as int) =~= fm);
    }
}

/// The encoder's state: the pairs committed so far, in order.
#[derive(Debug)]
pub struct Serializer {
    pairs: Vec<(String, String)>,
}

impl View for Serializer {
    type V = Seq<(Seq<char>, Seq<char>)>;

    closed spec fn view(&self) -> Seq<(Seq<char>, Seq<char>)> {
        pairs_view(self.pairs@)
    }
}

impl Serializer {
    pub fn new() -> (s: Serializer)
        ensures
            s@ =~= Seq::<(Seq<char>, Seq<char>)>::empty(),
    {
        Serializer { pairs: Vec::new() }
    }

    /// Encodes one field of the outermost record, committing its pairs;
    /// an absent optional commits nothing.  Always succeeds.
    pub fn serialize_field(&mut self, name: &str, value: &Value) -> (r: Result<(), Error>)
        requires
            model_wf(value.model()),
        ensures
            r is Ok,
            final(self)@ == old(self)@ + field_pairs(name@, value.model()),
    {
        encode_field(name, value, &mut self.pairs);
        Result::Ok(())
    }

    /// The finished wire text: the committed pairs joined with `&`.
    pub fn end(self) -> (r: String)
        ensures
            r@ == render_pairs(self@),
    {
        render(&self.pairs)
    }
}

/// Joins the pair buffer into one flat text.
fn render(pairs: &Vec<(String, String)>) -> (r: String)
    ensures
        r@ == render_pairs(pairs_view(pairs@)),
{
    let ghost chunks = pairs_view(pairs@).map_values(
        |p: (Seq<char>, Seq<char>)| pair_text(p),
    );
    let mut out = String::new();
    let n = pairs.len();
    let mut i: usize = 0;
    proof {
        reveal_strlit("&");
        reveal_strlit("=");
    }
    while i < n
        invariant
            0 <= i <= n,
            n == pairs@.len(),
            chunks == pairs_view(pairs@).map_values(|p: (Seq<char>, Seq<char>)| pair_text(p)),
            chunks.len() == n,
            "&"@ == seq!['&'],
            "="@ == seq!['='],
            out@ == spec_join(chunks.take(i as int), '&'),
        decreases n - i,
    {
        if i > 0 {
            out.append("&");
        }
        out.append(pairs[i].0.as_str());
        out.append("=");
        out.append(pairs[i].1.as_str());
        proof {
            assert(chunks[i as int] == pair_text((pairs@[i as int].0@, pairs@[i as int].1@)));
            assert(chunks.take(i as int + 1).drop_last() =~= chunks.take(i as int));
            assert(chunks.take(i as int + 1).last() == chunks[i as int]);
            if i == 0 {
                assert(out@ =~= chunks[0]);
                assert(out@ =~= spec_join(chunks.take(1), '&'));
            } else {
                assert(out@ =~= spec_join(chunks.take(i as int), '&') + seq!['&']
                    + chunks[i as int]);
                assert(out@ =~= spec_join(chunks.take(i as int + 1), '&'));
            }
        }
        i = i + 1;
    }
    proof {
        assert(chunks.take(n as int) =~= chunks);
    }
    out
}

/// Encodes a structured value whose outermost shape is a record as flat
/// wire text: the fields' pairs in declared order, joined with `&`.
/// Encoding succeeds on every record; only a non-record top-level value
/// is refused.
pub fn to_string(value: &Value) -> (r: Result<String, Error>)
    requires
        model_wf(value.model()),
    ensures
        r is Ok <==> value.model() is Record,
        r matches Result::Ok(s) ==> value.model() matches ValueModel::Record(fields) && s@
            == render_pairs(record_pairs(fields)),
        r matches Result::Err(e) ==> e.model() == leaf_error(
            "top-level value must be a record"@,
        ),
{
    match value {
        Value::Record(fields) => {
            let mut out: Vec<(String, String)> = Vec::new();
            encode_record(fields, &mut out);
            Result::Ok(render(&out))
        },
        _ => Result::Err(Error::new("top-level value must be a record", Option::None)),
    }
}

} // verus!
