//! Laws of the codec: what holds of encoding and decoding together.
//! Each proof function states one law over the same spec functions the
//! executable functions' contracts use.

use vstd::prelude::*;

use crate::decode::{
    chunk_pair, chunks_pairs, sd_elems, sd_field, sd_record, sd_vals, spec_parse_pairs,
    ElemsResult, FieldResult, RecordResult,
};
use crate::encode::{field_pairs, pair_text, record_pairs, render_pairs};
use crate::fieldmap::spec_collect;
use crate::scalar::{
    lemma_scalar_round_trip, model_kind, scalar_text, ScalarKind, ScalarModel,
};
use crate::text::{lemma_split_concat, lemma_split_join, lemma_split_whole, spec_split, text_wf};
use crate::value::{
    field_flat_names, fields_flat_names, matches_shape, record_matches, ShapeModel, ValueModel,
};

verus! {

/// Wire-safe pairs: no name and no value contains `&` or `=`.
pub open spec fn pairs_wf(ps: Seq<(Seq<char>, Seq<char>)>) -> bool {
    forall|i: int|
        0 <= i < ps.len() ==> text_wf(#[trigger] ps[i].0) && text_wf(ps[i].1)
}

// ------------------------------------------------------------------
// optional fields on the wire
// ------------------------------------------------------------------

/// An absent optional field contributes no pair at all, so its key never
/// appears in the encoded text.
pub proof fn lemma_absent_optional_encodes_nothing(name: Seq<char>)
    ensures
        field_pairs(name, ValueModel::Opt(Option::None)) == Seq::<(Seq<char>, Seq<char>)>::empty(),
{
    assert(field_pairs(name, ValueModel::Opt(Option::None)) =~= Seq::<(
        Seq<char>,
        Seq<char>,
    )>::empty());
}

/// A present optional field encodes exactly as its unwrapped value does.
pub proof fn lemma_present_optional_transparent(name: Seq<char>, v: ValueModel)
    ensures
        field_pairs(name, ValueModel::Opt(Option::Some(Box::new(v)))) == field_pairs(name, v),
{
}

// ------------------------------------------------------------------
// repeated-key sequences
// ------------------------------------------------------------------

/// Encoding a sequence at a field repeats the key once per element, in
/// element order; the empty sequence contributes no pair, so the field
/// is omitted entirely.
pub proof fn lemma_sequence_pairs(name: Seq<char>, elems: Seq<ScalarModel>)
    ensures
        field_pairs(name, ValueModel::List(elems)).len() == elems.len(),
        forall|i: int|
            0 <= i < elems.len() ==> #[trigger] field_pairs(name, ValueModel::List(elems))[i] == (
                name,
                scalar_text(elems[i]),
            ),
        elems.len() == 0 ==> field_pairs(name, ValueModel::List(elems)) == Seq::<(
            Seq<char>,
            Seq<char>,
        )>::empty(),
{
    if elems.len() == 0 {
        assert(field_pairs(name, ValueModel::List(elems)) =~= Seq::<(
            Seq<char>,
            Seq<char>,
        )>::empty());
    }
}

/// Decoding the canonical texts of a sequence's elements yields those
/// elements back, in the same order.
pub proof fn lemma_elems_round_trip(k: ScalarKind, elems: Seq<ScalarModel>)
    requires
        forall|i: int| 0 <= i < elems.len() ==> model_kind(#[trigger] elems[i]) == k,
        forall|i: int| 0 <= i < elems.len() ==> !(#[trigger] elems[i] is Bytes),
    ensures
        sd_elems(k, elems.map_values(|e: ScalarModel| scalar_text(e))) == ElemsResult::Ok(elems),
    decreases elems,
{
    let texts = elems.map_values(|e: ScalarModel| scalar_text(e));
    if elems.len() == 0 {
        assert(texts.len() == 0);
        assert(sd_elems(k, texts) == ElemsResult::Ok(seq![]));
        assert(elems =~= Seq::<ScalarModel>::empty());
    } else {
        assert(forall|i: int|
            0 <= i < elems.drop_first().len() ==> #[trigger] elems.drop_first()[i]
                == elems[i + 1]);
        lemma_elems_round_trip(k, elems.drop_first());
        assert(texts.drop_first() =~= elems.drop_first().map_values(
            |e: ScalarModel| scalar_text(e),
        ));
        assert(texts.first() == scalar_text(elems.first()));
        lemma_scalar_round_trip(elems.first());
        assert(seq![elems.first()] + elems.drop_first() =~= elems);
    }
}

/// Decoding a sequence field whose key holds its elements' canonical
/// texts yields the elements back, in order, consuming the key.
pub proof fn lemma_sequence_round_trip(
    m: Map<Seq<char>, Seq<Seq<char>>>,
    name: Seq<char>,
    k: ScalarKind,
    elems: Seq<ScalarModel>,
)
    requires
        forall|i: int| 0 <= i < elems.len() ==> model_kind(#[trigger] elems[i]) == k,
        forall|i: int| 0 <= i < elems.len() ==> !(#[trigger] elems[i] is Bytes),
        m.dom().contains(name),
        m[name] == elems.map_values(|e: ScalarModel| scalar_text(e)),
    ensures
        sd_field(m, name, ShapeModel::List(k)) == FieldResult::Ok(
            (ValueModel::List(elems), m.remove(name)),
        ),
{
    lemma_elems_round_trip(k, elems);
}

/// Decoding an absent key at a sequence field yields the empty sequence,
/// without error.
pub proof fn lemma_absent_sequence_decodes_empty(
    m: Map<Seq<char>, Seq<Seq<char>>>,
    name: Seq<char>,
    k: ScalarKind,
)
    requires
        !m.dom().contains(name),
    ensures
        sd_field(m, name, ShapeModel::List(k)) == FieldResult::Ok(
            (ValueModel::List(Seq::<ScalarModel>::empty()), m),
        ),
{
    assert(Seq::<ScalarModel>::empty() =~= seq![]);
}

// ------------------------------------------------------------------
// parsing undoes rendering
// ------------------------------------------------------------------

/// Parsing the rendered text of one or more wire-safe pairs yields those
/// pairs back.
pub proof fn lemma_parse_render(ps: Seq<(Seq<char>, Seq<char>)>)
    requires
        pairs_wf(ps),
        ps.len() >= 1,
    ensures
        spec_parse_pairs(render_pairs(ps)) == Option::Some(ps),
{
    let chunks = ps.map_values(|p: (Seq<char>, Seq<char>)| pair_text(p));
    assert forall|i: int, j: int|
        0 <= i < chunks.len() && 0 <= j < chunks[i].len() implies #[trigger] chunks[i][j]
        != '&' by {
        assert(chunks[i] == pair_text(ps[i]));
        assert(text_wf(ps[i].0) && text_wf(ps[i].1));
        if j < ps[i].0.len() {
            assert(chunks[i][j] == ps[i].0[j]);
        } else if j == ps[i].0.len() {
            assert(chunks[i][j] == '=');
        } else {
            assert(chunks[i][j] == ps[i].1[j - ps[i].0.len() - 1]);
        }
    }
    lemma_split_join(chunks, '&');
    assert(spec_split(render_pairs(ps), '&') == chunks);
    assert forall|i: int| 0 <= i < chunks.len() implies chunk_pair(#[trigger] chunks[i])
        == Option::Some(ps[i]) by {
        lemma_chunk_pair(ps[i]);
        assert(chunks[i] == pair_text(ps[i]));
    }
    assert(chunks_pairs(chunks) =~= ps);
}

/// A wire-safe pair's text splits back into exactly its name and value.
proof fn lemma_chunk_pair(p: (Seq<char>, Seq<char>))
    requires
        text_wf(p.0),
        text_wf(p.1),
    ensures
        chunk_pair(pair_text(p)) == Option::Some(p),
{
    lemma_split_concat(p.0, p.1, '=');
    lemma_split_whole(p.0, '=');
    lemma_split_whole(p.1, '=');
    assert(spec_split(pair_text(p), '=') =~= seq![p.0, p.1]);
}

// ------------------------------------------------------------------
// collecting pairs into the field map
// ------------------------------------------------------------------

/// A key is in the collected map exactly when some pair carries it.
pub proof fn lemma_collect_dom(ps: Seq<(Seq<char>, Seq<char>)>, k: Seq<char>)
    ensures
        spec_collect(ps).dom().contains(k) <==> exists|i: int|
            0 <= i < ps.len() && #[trigger] ps[i].0 == k,
    decreases ps,
{
    if ps.len() > 0 {
        lemma_collect_dom(ps.drop_last(), k);
        if spec_collect(ps).dom().contains(k) && ps.last().0 != k {
            let i = choose|i: int|
                0 <= i < ps.drop_last().len() && #[trigger] ps.drop_last()[i].0 == k;
            assert(ps[i].0 == k);
        }
        if exists|i: int| 0 <= i < ps.len() && #[trigger] ps[i].0 == k {
            let i = choose|i: int| 0 <= i < ps.len() && #[trigger] ps[i].0 == k;
            if i < ps.len() - 1 {
                assert(ps.drop_last()[i].0 == k);
            }
        }
    }
}

/// Collecting pair lists with disjoint key sets collects each list on
/// its own.
pub proof fn lemma_collect_concat(p1: Seq<(Seq<char>, Seq<char>)>, p2: Seq<(Seq<char>, Seq<char>)>)
    requires
        forall|i: int, j: int|
            0 <= i < p1.len() && 0 <= j < p2.len() ==> #[trigger] p1[i].0 != #[trigger] p2[j].0,
    ensures
        spec_collect(p1 + p2) =~= spec_collect(p1).union_prefer_right(spec_collect(p2)),
    decreases p2,
{
    if p2.len() == 0 {
        assert(p1 + p2 =~= p1);
        assert(spec_collect(p2) =~= Map::<Seq<char>, Seq<Seq<char>>>::empty());
    } else {
        let q = p2.last();
        lemma_collect_concat(p1, p2.drop_last());
        assert((p1 + p2).drop_last() =~= p1 + p2.drop_last());
        assert((p1 + p2).last() == q);
        lemma_collect_dom(p1, q.0);
        assert(p2[p2.len() - 1].0 == q.0);
        assert(!spec_collect(p1).dom().contains(q.0));
    }
}

// ------------------------------------------------------------------
// flattening
// ------------------------------------------------------------------

/// Decoding concatenated field lists decodes the first list, then the
/// second against what the first left over.
pub proof fn lemma_sd_record_concat(
    m: Map<Seq<char>, Seq<Seq<char>>>,
    sf1: Seq<(Seq<char>, ShapeModel)>,
    sf2: Seq<(Seq<char>, ShapeModel)>,
)
    ensures
        sd_record(m, sf1 + sf2) == (match sd_record(m, sf1) {
            Result::Ok((vals1, m1)) => match sd_record(m1, sf2) {
                Result::Ok((vals2, m2)) => RecordResult::Ok((vals1 + vals2, m2)),
                Result::Err(e) => RecordResult::Err(e),
            },
            Result::Err(e) => RecordResult::Err(e),
        }),
    decreases sf1,
{
    if sf1.len() == 0 {
        assert(sf1 + sf2 =~= sf2);
        match sd_record(m, sf2) {
            Result::Ok((vals2, m2)) => {
                assert(Seq::<(Seq<char>, ValueModel)>::empty() + vals2 =~= vals2);
            },
            Result::Err(_) => {},
        }
    } else {
        assert((sf1 + sf2).first() == sf1.first());
        assert((sf1 + sf2).drop_first() =~= sf1.drop_first() + sf2);
        match sd_field(m, sf1.first().0, sf1.first().1) {
            Result::Ok((vm, mnext)) => {
                lemma_sd_record_concat(mnext, sf1.drop_first(), sf2);
                match sd_record(mnext, sf1.drop_first()) {
                    Result::Ok((rest1, m1)) => {
                        match sd_record(m1, sf2) {
                            Result::Ok((vals2, m2)) => {
                                assert((seq![(sf1.first().0, vm)] + rest1) + vals2 =~= seq![
                                    (sf1.first().0, vm),
                                ] + (rest1 + vals2));
                            },
                            Result::Err(_) => {},
                        }
                    },
                    Result::Err(_) => {},
                }
            },
            Result::Err(_) => {},
        }
    }
}

// ------------------------------------------------------------------
// round trip
// ------------------------------------------------------------------

/// A chain of present optionals ending in a decodable scalar: what a
/// present optional field may wrap for the round trip to hold.
pub open spec fn chain_value(v: ValueModel) -> bool
    decreases v,
{
    match v {
        ValueModel::Scalar(sc) => !(sc is Bytes),
        ValueModel::Opt(o) => match o {
            Option::Some(b) => chain_value(*b),
            Option::None => false,
        },
        _ => false,
    }
}

/// A value the round trip covers: scalar, optional and record fields
/// only, scalars decodable (no byte buffers), and a present optional
/// wrapping a chain that ends in a scalar.
pub open spec fn plain_value(v: ValueModel) -> bool
    decreases v,
{
    match v {
        ValueModel::Scalar(sc) => !(sc is Bytes),
        ValueModel::Opt(o) => match o {
            Option::Some(b) => chain_value(*b),
            Option::None => true,
        },
        ValueModel::Record(fields) => plain_fields(fields),
        _ => false,
    }
}

pub open spec fn plain_fields(fields: Seq<(Seq<char>, ValueModel)>) -> bool
    decreases fields,
{
    fields.len() > 0 ==> (plain_value(fields.first().1) && plain_fields(fields.drop_first()))
}

/// The one scalar text at the end of a chain of present optionals.
pub open spec fn chain_text(v: ValueModel) -> Seq<char>
    decreases v,
{
    match v {
        ValueModel::Scalar(sc) => scalar_text(sc),
        ValueModel::Opt(o) => match o {
            Option::Some(b) => chain_text(*b),
            Option::None => Seq::empty(),
        },
        _ => Seq::empty(),
    }
}

/// A chain contributes exactly one pair: its key and its leaf scalar's
/// text.
proof fn lemma_chain_pairs(name: Seq<char>, v: ValueModel)
    requires
        chain_value(v),
    ensures
        field_pairs(name, v) == seq![(name, chain_text(v))],
    decreases v,
{
    match v {
        ValueModel::Opt(o) => match o {
            Option::Some(b) => {
                lemma_chain_pairs(name, *b);
            },
            Option::None => {},
        },
        _ => {},
    }
}

/// Decoding a chain's one text at its own shape yields the chain back,
/// and leaves the map alone.
proof fn lemma_chain_vals_inverse(
    m: Map<Seq<char>, Seq<Seq<char>>>,
    v: ValueModel,
    s: ShapeModel,
)
    requires
        chain_value(v),
        matches_shape(v, s),
    ensures
        sd_vals(m, seq![chain_text(v)], s) == FieldResult::Ok((v, m)),
    decreases s,
{
    match v {
        ValueModel::Scalar(sc) => {
            lemma_scalar_round_trip(sc);
        },
        ValueModel::Opt(o) => match o {
            Option::Some(b) => {
                match s {
                    ShapeModel::Opt(is) => {
                        lemma_chain_vals_inverse(m, *b, *is);
                    },
                    _ => {},
                }
            },
            Option::None => {},
        },
        _ => {},
    }
}

proof fn lemma_contains_concat_l<A>(a: Seq<A>, b: Seq<A>, x: A)
    requires
        a.contains(x),
    ensures
        (a + b).contains(x),
{
    let i = choose|i: int| 0 <= i < a.len() && a[i] == x;
    assert((a + b)[i] == x);
}

proof fn lemma_contains_concat_r<A>(a: Seq<A>, b: Seq<A>, x: A)
    requires
        b.contains(x),
    ensures
        (a + b).contains(x),
{
    let i = choose|i: int| 0 <= i < b.len() && b[i] == x;
    assert((a + b)[a.len() + i] == x);
}

proof fn lemma_no_dup_split<A>(a: Seq<A>, b: Seq<A>)
    requires
        (a + b).no_duplicates(),
    ensures
        a.no_duplicates(),
        b.no_duplicates(),
        forall|i: int, j: int|
            0 <= i < a.len() && 0 <= j < b.len() ==> #[trigger] a[i] != #[trigger] b[j],
{
    assert forall|i: int, j: int| 0 <= i < j < a.len() implies a[i] != a[j] by {
        assert((a + b)[i] == a[i]);
        assert((a + b)[j] == a[j]);
    }
    assert forall|i: int, j: int| 0 <= i < j < b.len() implies b[i] != b[j] by {
        assert((a + b)[a.len() + i] == b[i]);
        assert((a + b)[a.len() + j] == b[j]);
    }
    assert forall|i: int, j: int|
        0 <= i < a.len() && 0 <= j < b.len() implies #[trigger] a[i] != #[trigger] b[j] by {
        assert((a + b)[i] == a[i]);
        assert((a + b)[a.len() + j] == b[j]);
    }
}

/// Fields whose pairs all carry their own keys: a present optional never
/// wraps a record, whose pairs would carry the inner fields' names
/// instead of the optional's own.
pub open spec fn field_names_ok(v: ValueModel) -> bool
    decreases v,
{
    match v {
        ValueModel::Opt(o) => match o {
            Option::Some(b) => !(*b is Record) && field_names_ok(*b),
            Option::None => true,
        },
        ValueModel::Record(fields) => fields_names_ok(fields),
        _ => true,
    }
}

pub open spec fn fields_names_ok(fields: Seq<(Seq<char>, ValueModel)>) -> bool
    decreases fields,
{
    fields.len() > 0 ==> (field_names_ok(fields.first().1) && fields_names_ok(
        fields.drop_first(),
    ))
}

proof fn lemma_chain_names_ok(v: ValueModel)
    requires
        chain_value(v),
    ensures
        field_names_ok(v),
        !(v is Record),
    decreases v,
{
    match v {
        ValueModel::Opt(o) => match o {
            Option::Some(b) => {
                lemma_chain_names_ok(*b);
            },
            Option::None => {},
        },
        _ => {},
    }
}

proof fn lemma_plain_names_ok(v: ValueModel)
    requires
        plain_value(v),
    ensures
        field_names_ok(v),
    decreases v,
{
    match v {
        ValueModel::Opt(o) => match o {
            Option::Some(b) => {
                lemma_chain_names_ok(*b);
            },
            Option::None => {},
        },
        ValueModel::Record(fields) => {
            lemma_plain_fields_names_ok(fields);
        },
        _ => {},
    }
}

proof fn lemma_plain_fields_names_ok(fields: Seq<(Seq<char>, ValueModel)>)
    requires
        plain_fields(fields),
    ensures
        fields_names_ok(fields),
    decreases fields,
{
    if fields.len() > 0 {
        lemma_plain_names_ok(fields.first().1);
        lemma_plain_fields_names_ok(fields.drop_first());
    }
}

/// Every pair a field emits carries one of the field's flattened names.
proof fn lemma_field_pair_names(name: Seq<char>, v: ValueModel, s: ShapeModel)
    requires
        matches_shape(v, s),
        field_names_ok(v),
    ensures
        forall|j: int|
            0 <= j < field_pairs(name, v).len() ==> field_flat_names(name, s).contains(
                #[trigger] field_pairs(name, v)[j].0,
            ),
    decreases s,
{
    match v {
        ValueModel::Scalar(sc) => {
            assert(field_flat_names(name, s)[0] == name);
            assert(field_flat_names(name, s).contains(name));
            assert forall|j: int| 0 <= j < field_pairs(name, v).len() implies field_flat_names(
                name,
                s,
            ).contains(#[trigger] field_pairs(name, v)[j].0) by {
                assert(field_pairs(name, v) == seq![(name, scalar_text(sc))]);
                assert(field_pairs(name, v)[j].0 == name);
            }
        },
        ValueModel::Opt(o) => match o {
            Option::Some(b) => {
                match s {
                    ShapeModel::Opt(is) => {
                        // the wrapped value is not a record, so the inner
                        // shape is not one either, and its one flattened
                        // name is the field's own
                        assert(matches_shape(*b, *is));
                        if *is is Record {
                            assert(*b is Record);
                        }
                        assert(!(*is is Record));
                        lemma_field_pair_names(name, *b, *is);
                        assert(field_pairs(name, v) == field_pairs(name, *b));
                        assert(field_flat_names(name, *is) == seq![name]);
                        assert(field_flat_names(name, s) == seq![name]);
                        assert forall|j: int|
                            0 <= j < field_pairs(name, v).len() implies field_flat_names(
                            name,
                            s,
                        ).contains(#[trigger] field_pairs(name, v)[j].0) by {
                            assert(field_flat_names(name, *is).contains(
                                field_pairs(name, *b)[j].0,
                            ));
                        }
                    },
                    _ => {},
                }
            },
            Option::None => {
                assert(field_pairs(name, v) =~= Seq::<(Seq<char>, Seq<char>)>::empty());
            },
        },
        ValueModel::List(elems) => {
            assert(field_flat_names(name, s)[0] == name);
            assert(field_flat_names(name, s).contains(name));
            assert forall|j: int| 0 <= j < field_pairs(name, v).len() implies field_flat_names(
                name,
                s,
            ).contains(#[trigger] field_pairs(name, v)[j].0) by {
                assert(field_pairs(name, v)[j] == (name, scalar_text(elems[j])));
            }
        },
        ValueModel::Arr(texts) => {
            assert(field_flat_names(name, s)[0] == name);
            assert(field_flat_names(name, s).contains(name));
            assert forall|j: int| 0 <= j < field_pairs(name, v).len() implies field_flat_names(
                name,
                s,
            ).contains(#[trigger] field_pairs(name, v)[j].0) by {
                assert(field_pairs(name, v)[j].0 == name);
            }
        },
        ValueModel::Record(vf) => {
            match s {
                ShapeModel::Record(sf) => {
                    lemma_record_pair_names(vf, sf);
                    assert(field_pairs(name, v) == record_pairs(vf));
                    assert(field_flat_names(name, s) == fields_flat_names(sf));
                    assert forall|j: int|
                        0 <= j < field_pairs(name, v).len() implies field_flat_names(
                        name,
                        s,
                    ).contains(#[trigger] field_pairs(name, v)[j].0) by {
                        assert(fields_flat_names(sf).contains(record_pairs(vf)[j].0));
                    }
                },
                _ => {},
            }
        },
    }
}

/// Every pair a record emits carries one of its flattened field names.
proof fn lemma_record_pair_names(vf: Seq<(Seq<char>, ValueModel)>, sf: Seq<(Seq<char>, ShapeModel)>)
    requires
        record_matches(vf, sf),
        fields_names_ok(vf),
    ensures
        forall|j: int|
            0 <= j < record_pairs(vf).len() ==> fields_flat_names(sf).contains(
                #[trigger] record_pairs(vf)[j].0,
            ),
    decreases sf,
{
    if sf.len() > 0 {
        let fp0 = field_pairs(vf.first().0, vf.first().1);
        let rp = record_pairs(vf.drop_first());
        let ffn0 = field_flat_names(sf.first().0, sf.first().1);
        let ffnr = fields_flat_names(sf.drop_first());
        assert(vf.first().0 == sf.first().0);
        lemma_field_pair_names(sf.first().0, vf.first().1, sf.first().1);
        lemma_record_pair_names(vf.drop_first(), sf.drop_first());
        assert(record_pairs(vf) == fp0 + rp);
        assert(fields_flat_names(sf) == ffn0 + ffnr);
        assert forall|j: int| 0 <= j < record_pairs(vf).len() implies fields_flat_names(
            sf,
        ).contains(#[trigger] record_pairs(vf)[j].0) by {
            if j < fp0.len() {
                assert(record_pairs(vf)[j] == fp0[j]);
                assert(ffn0.contains(fp0[j].0));
                lemma_contains_concat_l(ffn0, ffnr, fp0[j].0);
            } else {
                assert(record_pairs(vf)[j] == rp[j - fp0.len()]);
                assert(ffnr.contains(rp[j - fp0.len()].0));
                lemma_contains_concat_r(ffn0, ffnr, rp[j - fp0.len()].0);
            }
        }
    }
}

/// Decoding one field against its own pairs, with any extra disjoint
/// keys alongside, yields the field's value and the extra keys alone.
proof fn lemma_sd_field_inverse(
    mx: Map<Seq<char>, Seq<Seq<char>>>,
    name: Seq<char>,
    vm: ValueModel,
    sm: ShapeModel,
)
    requires
        matches_shape(vm, sm),
        plain_value(vm),
        field_flat_names(name, sm).no_duplicates(),
        forall|k: Seq<char>|
            mx.dom().contains(k) ==> !field_flat_names(name, sm).contains(k),
    ensures
        sd_field(spec_collect(field_pairs(name, vm)).union_prefer_right(mx), name, sm)
            == FieldResult::Ok((vm, mx)),
    decreases sm,
{
    match vm {
        ValueModel::Scalar(sc) => {
            let text = scalar_text(sc);
            let ps = field_pairs(name, vm);
            assert(ps == seq![(name, text)]);
            lemma_collect_single(name, text);
            let m = spec_collect(ps).union_prefer_right(mx);
            assert(field_flat_names(name, sm)[0] == name);
            assert(field_flat_names(name, sm).contains(name));
            assert(!mx.dom().contains(name));
            assert(m.dom().contains(name));
            assert(m[name] == seq![text]);
            lemma_scalar_round_trip(sc);
            assert(m.remove(name) =~= mx);
        },
        ValueModel::Opt(o) => match o {
            Option::Some(b) => {
                match sm {
                    ShapeModel::Opt(is) => {
                        lemma_chain_pairs(name, *b);
                        let text = chain_text(*b);
                        let ps = field_pairs(name, vm);
                        assert(ps == seq![(name, text)]);
                        lemma_collect_single(name, text);
                        let m = spec_collect(ps).union_prefer_right(mx);
                        assert(field_flat_names(name, sm)[0] == name);
                        assert(field_flat_names(name, sm).contains(name));
                        assert(!mx.dom().contains(name));
                        assert(m.dom().contains(name));
                        assert(m[name] == seq![text]);
                        assert(m.remove(name) =~= mx);
                        lemma_chain_vals_inverse(mx, *b, *is);
                    },
                    _ => {},
                }
            },
            Option::None => {
                let ps = field_pairs(name, vm);
                assert(ps =~= Seq::<(Seq<char>, Seq<char>)>::empty());
                assert(spec_collect(ps) =~= Map::<Seq<char>, Seq<Seq<char>>>::empty());
                let m = spec_collect(ps).union_prefer_right(mx);
                assert(field_flat_names(name, sm)[0] == name);
                assert(field_flat_names(name, sm).contains(name));
                assert(!mx.dom().contains(name));
                assert(m =~= mx);
            },
        },
        ValueModel::Record(vf) => {
            match sm {
                ShapeModel::Record(sf) => {
                    lemma_sd_record_inverse(mx, vf, sf);
                },
                _ => {},
            }
        },
        _ => {},
    }
}

/// Collecting one pair maps its key to its one value.
proof fn lemma_collect_single(name: Seq<char>, text: Seq<char>)
    ensures
        spec_collect(seq![(name, text)]) =~= Map::<Seq<char>, Seq<Seq<char>>>::empty().insert(
            name,
            seq![text],
        ),
{
    let ps: Seq<(Seq<char>, Seq<char>)> = seq![(name, text)];
    assert(ps.drop_last() =~= Seq::<(Seq<char>, Seq<char>)>::empty());
    assert(ps.last() == (name, text));
    assert(spec_collect(Seq::<(Seq<char>, Seq<char>)>::empty()) == Map::<
        Seq<char>,
        Seq<Seq<char>>,
    >::empty());
    assert(spec_collect(ps) == crate::fieldmap::map_append(
        spec_collect(ps.drop_last()),
        name,
        text,
    ));
    assert(!Map::<Seq<char>, Seq<Seq<char>>>::empty().dom().contains(name));
}

/// Decoding a record against its own pairs, with any extra disjoint
/// keys alongside, yields the record's fields and the extra keys alone.
proof fn lemma_sd_record_inverse(
    mx: Map<Seq<char>, Seq<Seq<char>>>,
    vf: Seq<(Seq<char>, ValueModel)>,
    sf: Seq<(Seq<char>, ShapeModel)>,
)
    requires
        record_matches(vf, sf),
        plain_fields(vf),
        fields_flat_names(sf).no_duplicates(),
        forall|k: Seq<char>| mx.dom().contains(k) ==> !fields_flat_names(sf).contains(k),
    ensures
        sd_record(spec_collect(record_pairs(vf)).union_prefer_right(mx), sf) == RecordResult::Ok(
            (vf, mx),
        ),
    decreases sf,
{
    if sf.len() == 0 {
        assert(record_pairs(vf) == Seq::<(Seq<char>, Seq<char>)>::empty());
        assert(spec_collect(record_pairs(vf)) =~= Map::<Seq<char>, Seq<Seq<char>>>::empty());
        let m = spec_collect(record_pairs(vf)).union_prefer_right(mx);
        assert(m =~= mx);
        assert(vf =~= Seq::<(Seq<char>, ValueModel)>::empty());
    } else {
        let n0 = sf.first().0;
        let s0 = sf.first().1;
        let v0 = vf.first().1;
        let fp0 = field_pairs(n0, v0);
        let rp = record_pairs(vf.drop_first());
        assert(vf.first().0 == n0);
        assert(record_pairs(vf) == fp0 + rp);
        let ffn0 = field_flat_names(n0, s0);
        let ffnr = fields_flat_names(sf.drop_first());
        assert(fields_flat_names(sf) == ffn0 + ffnr);
        lemma_no_dup_split(ffn0, ffnr);
        lemma_plain_names_ok(v0);
        lemma_plain_fields_names_ok(vf.drop_first());
        lemma_field_pair_names(n0, v0, s0);
        lemma_record_pair_names(vf.drop_first(), sf.drop_first());
        // the two pair lists carry disjoint keys
        assert forall|i: int, j: int|
            0 <= i < fp0.len() && 0 <= j < rp.len() implies #[trigger] fp0[i].0
            != #[trigger] rp[j].0 by {
            assert(ffn0.contains(fp0[i].0));
            assert(ffnr.contains(rp[j].0));
            let a = choose|a: int| 0 <= a < ffn0.len() && ffn0[a] == fp0[i].0;
            let b = choose|b: int| 0 <= b < ffnr.len() && ffnr[b] == rp[j].0;
            assert(ffn0[a] != ffnr[b]);
        }
        lemma_collect_concat(fp0, rp);
        let ma = spec_collect(fp0);
        let mb = spec_collect(rp);
        let m = spec_collect(record_pairs(vf)).union_prefer_right(mx);
        let mx1 = mb.union_prefer_right(mx);
        assert(m =~= ma.union_prefer_right(mx1));
        // the extra keys beside this field are not among its own names
        assert forall|k: Seq<char>| mx1.dom().contains(k) implies !ffn0.contains(k) by {
            if mb.dom().contains(k) {
                lemma_collect_dom(rp, k);
                let i = choose|i: int| 0 <= i < rp.len() && #[trigger] rp[i].0 == k;
                assert(ffnr.contains(rp[i].0));
                let b = choose|b: int| 0 <= b < ffnr.len() && ffnr[b] == k;
                if ffn0.contains(k) {
                    let a = choose|a: int| 0 <= a < ffn0.len() && ffn0[a] == k;
                    assert(ffn0[a] != ffnr[b]);
                }
            } else {
                if ffn0.contains(k) {
                    lemma_contains_concat_l(ffn0, ffnr, k);
                }
            }
        }
        lemma_sd_field_inverse(mx1, n0, v0, s0);
        assert(sd_field(m, n0, s0) == FieldResult::Ok((v0, mx1)));
        // the rest of the record decodes against what is left
        assert forall|k: Seq<char>| mx.dom().contains(k) implies !ffnr.contains(k) by {
            if ffnr.contains(k) {
                lemma_contains_concat_r(ffn0, ffnr, k);
            }
        }
        lemma_sd_record_inverse(mx, vf.drop_first(), sf.drop_first());
        assert(sd_record(mx1, sf.drop_first()) == RecordResult::Ok((vf.drop_first(), mx)));
        assert(sd_record(m, sf) == RecordResult::Ok((seq![(n0, v0)] + vf.drop_first(), mx)));
        assert(vf.first() == (n0, v0));
        assert(seq![(n0, v0)] + vf.drop_first() =~= vf);
    }
}

/// A non-record field's own name is among the record's flattened names.
proof fn lemma_own_name_in_flat(sf: Seq<(Seq<char>, ShapeModel)>, i: int)
    requires
        0 <= i < sf.len(),
        !(sf[i].1 is Record),
    ensures
        fields_flat_names(sf).contains(sf[i].0),
    decreases sf,
{
    let ffn0 = field_flat_names(sf.first().0, sf.first().1);
    let ffnr = fields_flat_names(sf.drop_first());
    if i == 0 {
        assert(ffn0[0] == sf[0].0);
        assert(ffn0.contains(sf[0].0));
        lemma_contains_concat_l(ffn0, ffnr, sf[0].0);
    } else {
        assert(sf.drop_first()[i - 1] == sf[i]);
        lemma_own_name_in_flat(sf.drop_first(), i - 1);
        lemma_contains_concat_r(ffn0, ffnr, sf[i].0);
    }
}

/// In a record whose flattened names are distinct, the key of an absent
/// optional field occurs in no encoded pair at all, so it never appears
/// in the encoded text nor in the decoder's map.
pub proof fn lemma_absent_optional_key_unused(
    vf: Seq<(Seq<char>, ValueModel)>,
    sf: Seq<(Seq<char>, ShapeModel)>,
    i: int,
)
    requires
        record_matches(vf, sf),
        fields_names_ok(vf),
        fields_flat_names(sf).no_duplicates(),
        0 <= i < vf.len(),
        vf[i].1 == ValueModel::Opt(Option::None::<Box<ValueModel>>),
    ensures
        forall|j: int|
            0 <= j < record_pairs(vf).len() ==> #[trigger] record_pairs(vf)[j].0 != vf[i].0,
        !spec_collect(record_pairs(vf)).dom().contains(vf[i].0),
    decreases sf,
{
    let fp0 = field_pairs(vf.first().0, vf.first().1);
    let rp = record_pairs(vf.drop_first());
    let ffn0 = field_flat_names(sf.first().0, sf.first().1);
    let ffnr = fields_flat_names(sf.drop_first());
    assert(record_pairs(vf) == fp0 + rp);
    assert(fields_flat_names(sf) == ffn0 + ffnr);
    lemma_no_dup_split(ffn0, ffnr);
    lemma_field_pair_names(sf.first().0, vf.first().1, sf.first().1);
    lemma_record_pair_names(vf.drop_first(), sf.drop_first());
    assert(vf.first().0 == sf.first().0);
    if i == 0 {
        // the absent field emits nothing, and every other field's pairs
        // carry names out of the rest of the namespace
        assert(fp0 =~= Seq::<(Seq<char>, Seq<char>)>::empty());
        assert(vf.first().1 == vf[0].1);
        assert(matches_shape(vf.first().1, sf.first().1));
        if sf.first().1 is Record {
            assert(vf.first().1 is Record);
        }
        assert(ffn0 == seq![sf.first().0]);
        assert forall|j: int| 0 <= j < record_pairs(vf).len() implies #[trigger] record_pairs(
            vf,
        )[j].0 != vf[i].0 by {
            assert(record_pairs(vf)[j] == rp[j]);
            assert(ffnr.contains(rp[j].0));
            let b = choose|b: int| 0 <= b < ffnr.len() && ffnr[b] == rp[j].0;
            assert(ffn0[0] != ffnr[b]);
        }
    } else {
        assert(vf.drop_first()[i - 1] == vf[i]);
        assert(sf.drop_first()[i - 1] == sf[i]);
        lemma_absent_optional_key_unused(vf.drop_first(), sf.drop_first(), i - 1);
        // matching aligns the value's name with its shape's name, and an
        // optional field's shape is not a record
        assert(vf[i].0 == sf[i].0) by {
            crate::value::lemma_record_matches_names(vf, sf);
        }
        assert(matches_shape(vf[i].1, sf[i].1)) by {
            crate::value::lemma_record_matches_names(vf, sf);
        }
        assert(!(sf[i].1 is Record));
        lemma_own_name_in_flat(sf.drop_first(), i - 1);
        assert(ffnr.contains(sf[i].0));
        assert forall|j: int| 0 <= j < record_pairs(vf).len() implies #[trigger] record_pairs(
            vf,
        )[j].0 != vf[i].0 by {
            if j < fp0.len() {
                assert(record_pairs(vf)[j] == fp0[j]);
                assert(ffn0.contains(fp0[j].0));
                let a = choose|a: int| 0 <= a < ffn0.len() && ffn0[a] == fp0[j].0;
                let b = choose|b: int| 0 <= b < ffnr.len() && ffnr[b] == sf[i].0;
                assert(ffn0[a] != ffnr[b]);
            } else {
                assert(record_pairs(vf)[j] == rp[j - fp0.len()]);
            }
        }
    }
    lemma_collect_dom(record_pairs(vf), vf[i].0);
}

/// Round trip: the encoded text of a record of scalar, optional and
/// nested-record fields parses back to exactly its pairs, and decoding
/// those pairs at the record's own shape yields the record back, with
/// the map fully consumed.
pub proof fn lemma_round_trip(vf: Seq<(Seq<char>, ValueModel)>, sf: Seq<(Seq<char>, ShapeModel)>)
    requires
        record_matches(vf, sf),
        plain_fields(vf),
        pairs_wf(record_pairs(vf)),
        fields_flat_names(sf).no_duplicates(),
        record_pairs(vf).len() >= 1,
    ensures
        spec_parse_pairs(render_pairs(record_pairs(vf))) == Option::Some(record_pairs(vf)),
        sd_record(spec_collect(record_pairs(vf)), sf) == RecordResult::Ok(
            (vf, Map::<Seq<char>, Seq<Seq<char>>>::empty()),
        ),
{
    lemma_parse_render(record_pairs(vf));
    let me = Map::<Seq<char>, Seq<Seq<char>>>::empty();
    lemma_sd_record_inverse(me, vf, sf);
    assert(spec_collect(record_pairs(vf)).union_prefer_right(me) =~= spec_collect(
        record_pairs(vf),
    ));
}

/// Flattening: a record field whose fields have their own names decodes
/// exactly as those fields written in its place, and the surrounding
/// fields see the same leftover map either way.  The nested result holds
/// the same values, wrapped as one record under the field's name.
pub proof fn lemma_flatten(
    m: Map<Seq<char>, Seq<Seq<char>>>,
    pre: Seq<(Seq<char>, ShapeModel)>,
    name: Seq<char>,
    inner: Seq<(Seq<char>, ShapeModel)>,
    post: Seq<(Seq<char>, ShapeModel)>,
)
    ensures
        ({
            let nested = sd_record(m, pre + seq![(name, ShapeModel::Record(inner))] + post);
            let flat = sd_record(m, pre + inner + post);
            match sd_record(m, pre) {
                Result::Ok((pv, m1)) => match sd_record(m1, inner) {
                    Result::Ok((iv, m2)) => match sd_record(m2, post) {
                        Result::Ok((qv, m3)) => nested == RecordResult::Ok(
                            (pv + seq![(name, ValueModel::Record(iv))] + qv, m3),
                        ) && flat == RecordResult::Ok((pv + iv + qv, m3)),
                        Result::Err(e) => nested == RecordResult::Err(e) && flat
                            == RecordResult::Err(e),
                    },
                    Result::Err(e) => nested == RecordResult::Err(e) && flat == RecordResult::Err(
                        e,
                    ),
                },
                Result::Err(e) => nested == RecordResult::Err(e) && flat == RecordResult::Err(e),
            }
        }),
{
    let mid = seq![(name, ShapeModel::Record(inner))];
    lemma_sd_record_concat(m, pre + mid, post);
    lemma_sd_record_concat(m, pre, mid);
    lemma_sd_record_concat(m, pre + inner, post);
    lemma_sd_record_concat(m, pre, inner);
    match sd_record(m, pre) {
        Result::Ok((pv, m1)) => {
            // the singleton nested-record field decodes by decoding its
            // fields against the same map
            assert(mid.len() == 1);
            assert(mid.first() == (name, ShapeModel::Record(inner)));
            assert(mid.drop_first() =~= Seq::<(Seq<char>, ShapeModel)>::empty());
            match sd_record(m1, inner) {
                Result::Ok((iv, m2)) => {
                    assert(sd_field(m1, mid.first().0, mid.first().1) == FieldResult::Ok(
                        (ValueModel::Record(iv), m2),
                    ));
                    assert(sd_record(m2, mid.drop_first()) == RecordResult::Ok(
                        (Seq::<(Seq<char>, ValueModel)>::empty(), m2),
                    )) by {
                        let ev: Seq<(Seq<char>, ValueModel)> = seq![];
                        assert(sd_record(m2, Seq::<(Seq<char>, ShapeModel)>::empty())
                            == RecordResult::Ok((ev, m2)));
                        assert(ev =~= Seq::<(Seq<char>, ValueModel)>::empty());
                    }
                    assert(sd_record(m1, mid) == RecordResult::Ok(
                        (seq![(name, ValueModel::Record(iv))] + Seq::<(
                            Seq<char>,
                            ValueModel,
                        )>::empty(), m2),
                    ));
                    assert(seq![(name, ValueModel::Record(iv))] + Seq::<(
                        Seq<char>,
                        ValueModel,
                    )>::empty() =~= seq![(name, ValueModel::Record(iv))]);
                    match sd_record(m2, post) {
                        Result::Ok((qv, m3)) => {
                            assert((pv + seq![(name, ValueModel::Record(iv))]) + qv =~= pv + seq![
                                (name, ValueModel::Record(iv)),
                            ] + qv);
                            assert((pv + iv) + qv =~= pv + iv + qv);
                        },
                        Result::Err(_) => {},
                    }
                },
                Result::Err(e) => {
                    assert(sd_field(m1, mid.first().0, mid.first().1) == FieldResult::Err(e));
                    assert(sd_record(m1, mid) == RecordResult::Err(e));
                },
            }
        },
        Result::Err(_) => {},
    }
}

} // verus!

