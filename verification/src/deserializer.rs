//! The decoder: a pull-based pass that reads a tree against the shape the
//! caller declares, producing a typed value or the first mismatch.

use vstd::prelude::*;

use crate::error::{Error, ErrorKind};
use crate::kv::{kvs_view, lemma_kvs_view, KeyValue, KeyValueModel, Value, ValueModel};
use crate::parser::{parse_input, spec_parse_input};
use crate::shape::{Shape, ShapeModel, TypedModel, TypedValue};
use crate::text::{
    lex_le, lex_le_chars, parse_i64_chars, parse_u64_chars, spec_parse_i64, spec_parse_u64,
    str_to_chars,
};

verus! {

broadcast use vstd::std_specs::vec::group_vec_axioms, vstd::seq::group_seq_axioms;

/// Two to the power `b`.
pub open spec fn pow2(b: int) -> int
    decreases b,
{
    if b <= 0 {
        1
    } else {
        2 * pow2(b - 1)
    }
}

/// Whether a shape is well formed: every integer width lies between one
/// and sixty-four bits.
pub open spec fn shape_wf(sh: ShapeModel) -> bool
    decreases sh, 1int,
{
    match sh {
        ShapeModel::Unsigned(b) => 1 <= b <= 64,
        ShapeModel::Signed(b) => 1 <= b <= 64,
        ShapeModel::Optional(inner) => shape_wf(*inner),
        ShapeModel::Sequence(elem) => shape_wf(*elem),
        ShapeModel::Mapping(k, v) => shape_wf(*k) && shape_wf(*v),
        ShapeModel::Struct(fields) => fields_wf(fields),
        _ => true,
    }
}

/// Whether every field shape of a struct is well formed.
pub open spec fn fields_wf(fields: Seq<(Seq<char>, ShapeModel)>) -> bool
    decreases fields, 0int,
{
    forall|i: int| 0 <= i < fields.len() ==> shape_wf(#[trigger] fields[i].1)
}

/// `x` placed into `acc` from the right: after the last entry whose key
/// precedes or equals `x`'s, so equal keys keep their first-come order.
pub open spec fn insert_sorted(acc: Seq<KeyValueModel>, x: KeyValueModel) -> Seq<KeyValueModel>
    decreases acc.len(),
{
    if acc.len() == 0 {
        seq![x]
    } else if lex_le(acc.last().key, x.key) {
        acc.push(x)
    } else {
        insert_sorted(acc.drop_last(), x).push(acc.last())
    }
}

/// The children stably sorted by key in ascending lexicographic order: the
/// order sequence elements are reconstructed in.
pub open spec fn spec_sort_kvs(s: Seq<KeyValueModel>) -> Seq<KeyValueModel>
    decreases s.len(),
{
    if s.len() == 0 {
        Seq::empty()
    } else {
        insert_sorted(spec_sort_kvs(s.drop_last()), s.last())
    }
}

/// The size of a tree value: one per node.
pub open spec fn value_size(v: ValueModel) -> nat
    decreases v,
{
    match v {
        ValueModel::Scalar(_) => 1,
        ValueModel::Section(kvs) => 1 + kvs_size(kvs),
    }
}

/// The total size of a list of children.
pub open spec fn kvs_size(kvs: Seq<KeyValueModel>) -> nat
    decreases kvs,
{
    if kvs.len() == 0 {
        0
    } else {
        value_size(kvs[0].value) + 1 + kvs_size(kvs.skip(1))
    }
}

/// Appending one child adds its size.
proof fn lemma_kvs_size_push(kvs: Seq<KeyValueModel>, x: KeyValueModel)
    ensures
        kvs_size(kvs.push(x)) == kvs_size(kvs) + value_size(x.value) + 1,
    decreases kvs.len(),
{
    if kvs.len() == 0 {
        assert(kvs.push(x)[0] == x);
        assert(kvs.push(x).skip(1) =~= Seq::<KeyValueModel>::empty());
        assert(kvs_size(kvs.push(x).skip(1)) == 0);
        assert(kvs_size(kvs.push(x)) == value_size(x.value) + 1);
        assert(kvs_size(kvs) == 0);
    } else {
        assert(kvs.push(x)[0] == kvs[0]);
        assert(kvs.push(x).skip(1) =~= kvs.skip(1).push(x));
        lemma_kvs_size_push(kvs.skip(1), x);
        assert(kvs_size(kvs.push(x)) == value_size(kvs[0].value) + 1 + kvs_size(
            kvs.push(x).skip(1),
        ));
        assert(kvs_size(kvs) == value_size(kvs[0].value) + 1 + kvs_size(kvs.skip(1)));
    }
}

/// Inserting one child adds its size.
proof fn lemma_insert_sorted_size(acc: Seq<KeyValueModel>, x: KeyValueModel)
    ensures
        kvs_size(insert_sorted(acc, x)) == kvs_size(acc) + value_size(x.value) + 1,
    decreases acc.len(),
{
    if acc.len() == 0 {
        assert(insert_sorted(acc, x) == seq![x]);
        assert(seq![x][0] == x);
        assert(seq![x].skip(1) =~= Seq::<KeyValueModel>::empty());
        assert(kvs_size(seq![x].skip(1)) == 0);
        assert(kvs_size(seq![x]) == value_size(seq![x][0].value) + 1 + kvs_size(seq![x].skip(1)));
        assert(kvs_size(seq![x]) == value_size(x.value) + 1);
        assert(kvs_size(acc) == 0);
    } else if lex_le(acc.last().key, x.key) {
        lemma_kvs_size_push(acc, x);
        assert(insert_sorted(acc, x) == acc.push(x));
    } else {
        lemma_insert_sorted_size(acc.drop_last(), x);
        lemma_kvs_size_push(insert_sorted(acc.drop_last(), x), acc.last());
        lemma_kvs_size_push(acc.drop_last(), acc.last());
        assert(acc.drop_last().push(acc.last()) =~= acc);
        assert(kvs_size(acc) == kvs_size(acc.drop_last()) + value_size(acc.last().value) + 1);
        assert(insert_sorted(acc, x) == insert_sorted(acc.drop_last(), x).push(acc.last()));
        assert(kvs_size(insert_sorted(acc, x)) == kvs_size(insert_sorted(acc.drop_last(), x))
            + value_size(acc.last().value) + 1);
    }
}

/// Sorting the children moves sizes around but changes none.
proof fn lemma_sort_size(s: Seq<KeyValueModel>)
    ensures
        kvs_size(spec_sort_kvs(s)) == kvs_size(s),
    decreases s.len(),
{
    if s.len() > 0 {
        lemma_sort_size(s.drop_last());
        lemma_insert_sorted_size(spec_sort_kvs(s.drop_last()), s.last());
        lemma_kvs_size_push(s.drop_last(), s.last());
        assert(s.drop_last().push(s.last()) =~= s);
    }
}

/// The position of `key` among the field names, or the field count when it
/// names none.
pub open spec fn field_index(fields: Seq<(Seq<char>, ShapeModel)>, key: Seq<char>) -> int
    decreases fields.len(),
{
    if fields.len() == 0 {
        0
    } else if fields[0].0 == key {
        0
    } else {
        1 + field_index(fields.skip(1), key)
    }
}

/// The empty field slots of a struct with `n` fields.
pub open spec fn empty_slots(n: nat) -> Seq<Option<TypedModel>> {
    Seq::new(n, |i: int| Option::<TypedModel>::None)
}

/// The named fields of a finished struct: each name with its decoded value.
pub open spec fn zip_fields(
    fields: Seq<(Seq<char>, ShapeModel)>,
    vals: Seq<Option<TypedModel>>,
) -> Seq<(Seq<char>, TypedModel)> {
    Seq::new(
        fields.len(),
        |i: int|
            (
                fields[i].0,
                match vals[i] {
                    Option::Some(t) => t,
                    Option::None => TypedModel::Unit,
                },
            ),
    )
}

/// The decoded value of tree node `v` read with shape `sh`, or the first
/// error: scalar shapes demand a scalar and parse its text, `0`/`1` for
/// booleans, exactly one character for `char`, emptiness deciding options
/// and units; sequence shapes demand a section and read its children in
/// ascending lexicographic key order; mapping and struct shapes demand a
/// section and read its children in source order; enum shapes demand a
/// scalar naming a variant.
pub open spec fn spec_decode(sh: ShapeModel, v: ValueModel) -> Result<TypedModel, ErrorKind>
    decreases value_size(v), sh,
    via spec_decode_decreases
{
    match sh {
        ShapeModel::Bool => match v {
            ValueModel::Scalar(s) => if s == seq!['0'] {
                Ok(TypedModel::Bool(false))
            } else if s == seq!['1'] {
                Ok(TypedModel::Bool(true))
            } else {
                Err(ErrorKind::ParseBoolError)
            },
            ValueModel::Section(_) => Err(ErrorKind::ExpectedValueError),
        },
        ShapeModel::Unsigned(bits) => match v {
            ValueModel::Scalar(s) => match spec_parse_u64(s) {
                Option::None => Err(ErrorKind::ExpectedValueError),
                Option::Some(n) => if bits == 64 || n < pow2(bits as int) {
                    Ok(TypedModel::Unsigned(n))
                } else {
                    Err(ErrorKind::ExpectedValueError)
                },
            },
            ValueModel::Section(_) => Err(ErrorKind::ExpectedValueError),
        },
        ShapeModel::Signed(bits) => match v {
            ValueModel::Scalar(s) => match spec_parse_i64(s) {
                Option::None => Err(ErrorKind::ExpectedValueError),
                Option::Some(n) => if bits == 64 || -pow2(bits - 1) <= n < pow2(bits - 1) {
                    Ok(TypedModel::Signed(n))
                } else {
                    Err(ErrorKind::ExpectedValueError)
                },
            },
            ValueModel::Section(_) => Err(ErrorKind::ExpectedValueError),
        },
        ShapeModel::Char => match v {
            ValueModel::Scalar(s) => if s.len() == 1 {
                Ok(TypedModel::Char(s[0]))
            } else {
                Err(ErrorKind::ExpectedCharError)
            },
            ValueModel::Section(_) => Err(ErrorKind::ExpectedValueError),
        },
        ShapeModel::Str => match v {
            ValueModel::Scalar(s) => Ok(TypedModel::Str(s)),
            ValueModel::Section(_) => Err(ErrorKind::ExpectedValueError),
        },
        ShapeModel::Unit => match v {
            ValueModel::Scalar(s) => if s.len() == 0 {
                Ok(TypedModel::Unit)
            } else {
                Err(ErrorKind::ExpectedUnitError)
            },
            ValueModel::Section(_) => Err(ErrorKind::ExpectedValueError),
        },
        ShapeModel::Optional(inner) => match v {
            ValueModel::Scalar(s) => if s.len() == 0 {
                Ok(TypedModel::OptNone)
            } else {
                match spec_decode(*inner, v) {
                    Ok(t) => Ok(TypedModel::OptSome(Box::new(t))),
                    Err(e) => Err(e),
                }
            },
            ValueModel::Section(_) => Err(ErrorKind::ExpectedValueError),
        },
        ShapeModel::Sequence(elem) => match v {
            ValueModel::Scalar(_) => Err(ErrorKind::ExpectedSectionError),
            ValueModel::Section(kvs) => match spec_decode_elems(*elem, spec_sort_kvs(kvs)) {
                Ok(ts) => Ok(TypedModel::Sequence(ts)),
                Err(e) => Err(e),
            },
        },
        ShapeModel::Mapping(_, _) => match v {
            ValueModel::Scalar(_) => Err(ErrorKind::ExpectedSectionError),
            ValueModel::Section(kvs) => match spec_decode_entries(sh, kvs) {
                Ok(ps) => Ok(TypedModel::Mapping(ps)),
                Err(e) => Err(e),
            },
        },
        ShapeModel::Struct(fields) => match v {
            ValueModel::Scalar(_) => Err(ErrorKind::ExpectedSectionError),
            ValueModel::Section(kvs) => match spec_decode_struct(
                sh,
                kvs,
                empty_slots(fields.len()),
            ) {
                Ok(vals) => if forall|i: int| 0 <= i < vals.len() ==> #[trigger] vals[i] is Some {
                    Ok(TypedModel::Struct(zip_fields(fields, vals)))
                } else {
                    Err(ErrorKind::Custom)
                },
                Err(e) => Err(e),
            },
        },
        ShapeModel::Enum(names) => match v {
            ValueModel::Scalar(s) => if names.contains(s) {
                Ok(TypedModel::Enum(s))
            } else {
                Err(ErrorKind::Custom)
            },
            ValueModel::Section(_) => Err(ErrorKind::ExpectedValueError),
        },
    }
}

/// The decoded elements of a sorted section, each child's value read with
/// the element shape, its key discarded.
pub open spec fn spec_decode_elems(elem: ShapeModel, kvs: Seq<KeyValueModel>) -> Result<
    Seq<TypedModel>,
    ErrorKind,
>
    decreases kvs_size(kvs), elem,
    via spec_decode_elems_decreases
{
    if kvs.len() == 0 {
        Ok(Seq::empty())
    } else {
        match spec_decode(elem, kvs[0].value) {
            Ok(t) => match spec_decode_elems(elem, kvs.skip(1)) {
                Ok(ts) => Ok(seq![t] + ts),
                Err(e) => Err(e),
            },
            Err(e) => Err(e),
        }
    }
}

/// The decoded entries of a section read as a mapping, in source order:
/// each key read as a scalar with the key shape, each value with the value
/// shape. `sh` must be a mapping shape.
pub open spec fn spec_decode_entries(sh: ShapeModel, kvs: Seq<KeyValueModel>) -> Result<
    Seq<(TypedModel, TypedModel)>,
    ErrorKind,
>
    decreases kvs_size(kvs), sh,
    via spec_decode_entries_decreases
{
    match sh {
        ShapeModel::Mapping(ksh, vsh) => if kvs.len() == 0 {
            Ok(Seq::empty())
        } else {
            match spec_decode(*ksh, ValueModel::Scalar(kvs[0].key)) {
                Ok(kt) => match spec_decode(*vsh, kvs[0].value) {
                    Ok(vt) => match spec_decode_entries(sh, kvs.skip(1)) {
                        Ok(ps) => Ok(seq![(kt, vt)] + ps),
                        Err(e) => Err(e),
                    },
                    Err(e) => Err(e),
                },
                Err(e) => Err(e),
            }
        },
        _ => Err(ErrorKind::Custom),
    }
}

/// The field slots after a section's children are matched against a
/// struct's fields in source order: a child naming no field, naming one
/// already filled, or failing to decode stops everything. `sh` must be a
/// struct shape.
pub open spec fn spec_decode_struct(
    sh: ShapeModel,
    kvs: Seq<KeyValueModel>,
    filled: Seq<Option<TypedModel>>,
) -> Result<Seq<Option<TypedModel>>, ErrorKind>
    decreases kvs_size(kvs), sh,
    via spec_decode_struct_decreases
{
    match sh {
        ShapeModel::Struct(fields) => if kvs.len() == 0 {
            Ok(filled)
        } else {
            let fi = field_index(fields, kvs[0].key);
            if fi >= fields.len() {
                Err(ErrorKind::Custom)
            } else if filled[fi] is Some {
                Err(ErrorKind::Custom)
            } else {
                match spec_decode(fields[fi].1, kvs[0].value) {
                    Ok(t) => spec_decode_struct(
                        sh,
                        kvs.skip(1),
                        filled.update(fi, Option::Some(t)),
                    ),
                    Err(e) => Err(e),
                }
            }
        },
        _ => Err(ErrorKind::Custom),
    }
}

/// Justifies the termination of `spec_decode`: a sorted section holds the
/// same total size as the section, and every child is smaller than it.
#[via_fn]
proof fn spec_decode_decreases(sh: ShapeModel, v: ValueModel) {
    match v {
        ValueModel::Section(kvs) => {
            lemma_sort_size(kvs);
        },
        _ => {},
    }
}

/// Justifies the termination of `spec_decode_elems`.
#[via_fn]
proof fn spec_decode_elems_decreases(elem: ShapeModel, kvs: Seq<KeyValueModel>) {
}

/// Justifies the termination of `spec_decode_entries`.
#[via_fn]
proof fn spec_decode_entries_decreases(sh: ShapeModel, kvs: Seq<KeyValueModel>) {
}

/// Justifies the termination of `spec_decode_struct`.
#[via_fn]
proof fn spec_decode_struct_decreases(
    sh: ShapeModel,
    kvs: Seq<KeyValueModel>,
    filled: Seq<Option<TypedModel>>,
) {
}

/// The typed value of a whole text read with shape `sh`: the text parsed as
/// file items, their pairs wrapped in one section, and that section
/// decoded.
pub open spec fn spec_from_str(s: Seq<char>, sh: ShapeModel) -> Result<TypedModel, ErrorKind> {
    match spec_parse_input(s) {
        Option::None => Err(ErrorKind::ParseKeyValueError),
        Option::Some(f) => spec_decode(sh, ValueModel::Section(f.kvs)),
    }
}

/// The views of children insert pointwise.
proof fn lemma_kvs_view_insert(a: Seq<KeyValue>, kv: KeyValue, j: int)
    requires
        0 <= j <= a.len(),
    ensures
        kvs_view(a.insert(j, kv)) == kvs_view(a).take(j) + seq![kv@] + kvs_view(a).skip(j),
{
    lemma_kvs_view(a);
    lemma_kvs_view(a.insert(j, kv));
    assert(kvs_view(a.insert(j, kv)) =~= kvs_view(a).take(j) + seq![kv@] + kvs_view(a).skip(j));
}

/// Inserting from the right at the first position whose predecessor's key
/// precedes or equals the new key is what `insert_sorted` does.
proof fn lemma_insert_at(acc: Seq<KeyValueModel>, x: KeyValueModel, j: int)
    requires
        0 <= j <= acc.len(),
        j > 0 ==> lex_le(acc[j - 1].key, x.key),
        forall|k: int| j <= k < acc.len() ==> !lex_le(#[trigger] acc[k].key, x.key),
    ensures
        insert_sorted(acc, x) == acc.take(j) + seq![x] + acc.skip(j),
    decreases acc.len(),
{
    if acc.len() == 0 {
        assert(acc.take(j) + seq![x] + acc.skip(j) =~= seq![x]);
    } else if j == acc.len() {
        assert(lex_le(acc.last().key, x.key));
        assert(acc.take(j) + seq![x] + acc.skip(j) =~= acc.push(x));
    } else {
        assert(!lex_le(acc[acc.len() - 1].key, x.key));
        assert forall|k: int| j <= k < acc.drop_last().len() implies !lex_le(
            #[trigger] acc.drop_last()[k].key,
            x.key,
        ) by {
            assert(acc.drop_last()[k] == acc[k]);
        }
        if j > 0 {
            assert(acc.drop_last()[j - 1] == acc[j - 1]);
        }
        lemma_insert_at(acc.drop_last(), x, j);
        assert((acc.drop_last().take(j) + seq![x] + acc.drop_last().skip(j)).push(acc.last())
            =~= acc.take(j) + seq![x] + acc.skip(j));
    }
}

/// Whether this pair's key comes strictly after `key`.
fn key_gt(a: &KeyValue, key: &Vec<char>) -> (r: bool)
    ensures
        r == !lex_le(a.key@, key@),
{
    let c = str_to_chars(a.key.as_str());
    !lex_le_chars(&c, key)
}

/// The children stably sorted by key in ascending lexicographic order.
fn sort_by_key(kvs: Vec<KeyValue>) -> (r: Vec<KeyValue>)
    ensures
        kvs_view(r@) == spec_sort_kvs(kvs_view(kvs@)),
{
    let ghost orig = kvs_view(kvs@);
    let mut rest = kvs;
    let mut res: Vec<KeyValue> = Vec::new();
    let ghost mut processed = Seq::<KeyValueModel>::empty();
    proof {
        lemma_kvs_view(rest@);
        assert(processed + kvs_view(rest@) =~= orig);
        assert(kvs_view(res@) =~= spec_sort_kvs(processed));
    }
    while rest.len() > 0
        invariant
            orig == processed + kvs_view(rest@),
            kvs_view(res@) == spec_sort_kvs(processed),
        decreases rest@.len(),
    {
        let ghost old_rest = rest@;
        let kv = rest.remove(0);
        proof {
            lemma_kvs_view(old_rest);
            lemma_kvs_view(rest@);
            assert(rest@ =~= old_rest.skip(1));
            assert(kvs_view(rest@) =~= kvs_view(old_rest).skip(1));
            assert(kvs_view(old_rest) =~= seq![kv@] + kvs_view(rest@));
        }
        let key_chars = str_to_chars(kv.key.as_str());
        let ghost acc = kvs_view(res@);
        proof {
            lemma_kvs_view(res@);
        }
        let mut j = res.len();
        while j > 0 && key_gt(&res[j - 1], &key_chars)
            invariant
                key_chars@ == kv.key@,
                acc == kvs_view(res@),
                acc.len() == res@.len(),
                forall|k: int| 0 <= k < res@.len() ==> #[trigger] acc[k] == res@[k]@,
                j <= res@.len(),
                forall|k: int| j <= k < res@.len() ==> !lex_le(#[trigger] acc[k].key, kv.key@),
            decreases j,
        {
            proof {
                assert(acc[j - 1].key == res@[j - 1].key@);
            }
            j = j - 1;
        }
        proof {
            if j > 0 {
                assert(acc[j - 1].key == res@[j - 1].key@);
                assert(lex_le(acc[j - 1].key, kv.key@));
            }
            lemma_insert_at(acc, kv@, j as int);
            lemma_kvs_view_insert(res@, kv, j as int);
        }
        res.insert(j, kv);
        proof {
            assert(kvs_view(res@) == insert_sorted(acc, kv@));
            assert(processed.push(kv@).drop_last() =~= processed);
            assert(spec_sort_kvs(processed.push(kv@)) == insert_sorted(spec_sort_kvs(processed), kv@));
            processed = processed.push(kv@);
            assert(processed + kvs_view(rest@) =~= orig);
        }
    }
    proof {
        assert(kvs_view(rest@).len() == 0) by {
            lemma_kvs_view(rest@);
        }
        assert(processed =~= orig);
    }
    res
}

/// Each value is at least one node.
proof fn lemma_value_size_pos(v: ValueModel)
    ensures
        value_size(v) >= 1,
{
}

/// A child's value is strictly smaller than the whole list.
proof fn lemma_kvs_size_child(kvs: Seq<KeyValueModel>, i: int)
    requires
        0 <= i < kvs.len(),
    ensures
        value_size(kvs[i].value) < kvs_size(kvs),
    decreases i,
{
    lemma_value_size_pos(kvs[0].value)
;
    if i == 0 {
    } else {
        lemma_kvs_size_child(kvs.skip(1), i - 1);
        assert(kvs.skip(1)[i - 1] == kvs[i]);
    }
}

/// A structurally equal copy of a child list.
fn clone_kvs(kvs: &Vec<KeyValue>) -> (r: Vec<KeyValue>)
    ensures
        kvs_view(r@) == kvs_view(kvs@),
{
    let mut r: Vec<KeyValue> = Vec::new();
    let mut i: usize = 0;
    proof {
        lemma_kvs_view(kvs@);
    }
    while i < kvs.len()
        invariant
            i <= kvs@.len(),
            r@.len() == i,
            forall|j: int| 0 <= j < i ==> #[trigger] r@[j]@ == kvs@[j]@,
        decreases kvs@.len() - i,
    {
        let c = kvs[i].clone();
        r.push(c);
        i = i + 1;
    }
    proof {
        lemma_kvs_view(r@);
        lemma_kvs_view(kvs@);
        assert(kvs_view(r@) =~= kvs_view(kvs@));
    }
    r
}

/// Powers of two do not shrink as the exponent grows.
proof fn lemma_pow2_mono(a: int, b: int)
    requires
        a <= b,
    ensures
        pow2(a) <= pow2(b),
        pow2(a) >= 1,
    decreases b - a,
{
    if a < b {
        lemma_pow2_mono(a, b - 1);
    } else {
        lemma_pow2_pos(a);
    }
}

/// Powers of two are positive.
proof fn lemma_pow2_pos(a: int)
    ensures
        pow2(a) >= 1,
    decreases a,
{
    if a > 0 {
        lemma_pow2_pos(a - 1);
    }
}

/// Two to the power `b`, executably.
fn pow2_u64(b: u32) -> (r: u64)
    requires
        b < 64,
    ensures
        r == pow2(b as int),
{
    let mut r: u64 = 1;
    let mut k: u32 = 0;
    while k < b
        invariant
            k <= b < 64,
            r == pow2(k as int),
        decreases b - k,
    {
        proof {
            lemma_pow2_mono(k as int, 62);
            lemma_pow2_le_62();
        }
        r = r * 2;
        k = k + 1;
    }
    r
}

/// The sixty-second power of two, written out.
proof fn lemma_pow2_le_62()
    ensures
        pow2(62) <= 0x4000000000000000,
{
    reveal_with_fuel(pow2, 64);
}

/// The views of the field slots, in order.
pub open spec fn slots_view(slots: Seq<Option<TypedValue>>) -> Seq<Option<TypedModel>> {
    Seq::new(
        slots.len(),
        |i: int|
            match slots[i] {
                Option::Some(t) => Option::Some(t@),
                Option::None => Option::None,
            },
    )
}

/// A decoded prefix prepended to the remaining elements' result, errors
/// passed through.
pub open spec fn extend_elems(prefix: Seq<TypedModel>, rest: Result<Seq<TypedModel>, ErrorKind>)
    -> Result<Seq<TypedModel>, ErrorKind> {
    match rest {
        Ok(ts) => Ok(prefix + ts),
        Err(e) => Err(e),
    }
}

/// A decoded prefix prepended to the remaining entries' result, errors
/// passed through.
pub open spec fn extend_entries(
    prefix: Seq<(TypedModel, TypedModel)>,
    rest: Result<Seq<(TypedModel, TypedModel)>, ErrorKind>,
) -> Result<Seq<(TypedModel, TypedModel)>, ErrorKind> {
    match rest {
        Ok(ps) => Ok(prefix + ps),
        Err(e) => Err(e),
    }
}

/// The position of `key` among the field names, executably.
fn find_field(fields: &Vec<(String, Shape)>, key: &String) -> (r: usize)
    ensures
        r == field_index(crate::shape::shape_fields_view(fields@), key@),
        r <= fields@.len(),
{
    let ghost fv = crate::shape::shape_fields_view(fields@);
    proof {
        crate::shape::lemma_shape_fields_view(fields@);
        assert(fv.skip(0) =~= fv);
    }
    let mut i: usize = 0;
    while i < fields.len()
        invariant
            fv == crate::shape::shape_fields_view(fields@),
            fv.len() == fields@.len(),
            forall|j: int| 0 <= j < fields@.len() ==> #[trigger] fv[j] == (
                fields@[j].0@,
                fields@[j].1@,
            ),
            i <= fields@.len(),
            field_index(fv, key@) == i + field_index(fv.skip(i as int), key@),
        decreases fields@.len() - i,
    {
        if fields[i].0 == *key {
            proof {
                assert(fv.skip(i as int)[0] == fv[i as int]);
                assert(field_index(fv.skip(i as int), key@) == 0);
            }
            return i;
        }
        proof {
            assert(fv.skip(i as int)[0] == fv[i as int]);
            assert(fv.skip(i as int).skip(1) =~= fv.skip(i + 1));
        }
        i = i + 1;
    }
    proof {
        assert(fv.skip(i as int).len() == 0);
    }
    i
}

/// Decode a section's children against a struct's fields in source order,
/// filling each field at most once and demanding every one.
#[verifier::rlimit(100)]
fn decode_struct_section(
    shape: &Shape,
    fields: &Vec<(String, Shape)>,
    kvs: &Vec<KeyValue>,
    Ghost(vm): Ghost<ValueModel>,
) -> (r: Result<TypedValue, Error>)
    requires
        shape_wf(shape@),
        *shape == Shape::Struct(*fields),
        vm == ValueModel::Section(kvs_view(kvs@)),
    ensures
        match r {
            Ok(t) => decode_gives(spec_decode(shape@, vm), t),
            Err(e) => decode_fails(spec_decode(shape@, vm), e),
        },
    decreases value_size(vm), shape, 0int,
{
    let ghost fv = crate::shape::shape_fields_view(fields@);
    let ghost cv = kvs_view(kvs@);
    let ghost init = empty_slots(fv.len());
    proof {
        crate::shape::lemma_shape_fields_view(fields@);
        lemma_kvs_view(kvs@);
        assert(value_size(vm) == 1 + kvs_size(cv));
    }
    let mut slots: Vec<Option<TypedValue>> = Vec::new();
    let mut f: usize = 0;
    while f < fields.len()
        invariant
            f <= fields@.len(),
            slots@.len() == f,
            forall|j: int| 0 <= j < f ==> #[trigger] slots@[j] is None,
        decreases fields@.len() - f,
    {
        slots.push(Option::None);
        f = f + 1;
    }
    proof {
        assert(slots_view(slots@) =~= init);
        assert(cv.skip(0) =~= cv);
    }
    let mut i: usize = 0;
    while i < kvs.len()
        invariant
            shape_wf(shape@),
            init == empty_slots(fv.len()),
            *shape == Shape::Struct(*fields),
            fv == crate::shape::shape_fields_view(fields@),
            fv.len() == fields@.len(),
            forall|j: int| 0 <= j < fields@.len() ==> #[trigger] fv[j] == (
                fields@[j].0@,
                fields@[j].1@,
            ),
            cv == kvs_view(kvs@),
            cv.len() == kvs@.len(),
            forall|j: int| 0 <= j < kvs@.len() ==> #[trigger] kvs@[j]@ == cv[j],
            vm == ValueModel::Section(cv),
            value_size(vm) == 1 + kvs_size(cv),
            i <= kvs@.len(),
            slots@.len() == fields@.len(),
            spec_decode_struct(shape@, cv, init) == spec_decode_struct(
                shape@,
                cv.skip(i as int),
                slots_view(slots@),
            ),
        decreases kvs@.len() - i,
    {
        proof {
            assert(cv.skip(i as int)[0] == cv[i as int]);
            assert(cv[i as int] == kvs@[i as int]@);
        }
        let fi = find_field(fields, &kvs[i].key);
        if fi >= fields.len() {
            proof {
                assert(spec_decode_struct(shape@, cv.skip(i as int), slots_view(slots@))
                    == Err::<Seq<Option<TypedModel>>, ErrorKind>(ErrorKind::Custom));
            }
            return Err(Error::Custom(String::from_str("unknown field")));
        }
        let already = match &slots[fi] {
            Option::Some(_) => true,
            Option::None => false,
        };
        if already {
            proof {
                assert(slots_view(slots@)[fi as int] is Some);
            }
            return Err(Error::Custom(String::from_str("duplicate field")));
        }
        proof {
            assert(slots_view(slots@)[fi as int] is None);
            lemma_kvs_size_child(cv, i as int);
            assert(shape@ == ShapeModel::Struct(fv));
            assert(fields_wf(fv));
            assert(shape_wf(fv[fi as int].1));
            assert(fv[fi as int].1 == fields@[fi as int].1@);
            assert(decreases_to!(*shape => shape->Struct_0));
            assert(shape->Struct_0 == *fields);
            assert(decreases_to!(fields@ => fields@[fi as int]));
            assert(decreases_to!(fields@[fi as int] => fields@[fi as int].1));
        }
        match decode_value(&fields[fi].1, &kvs[i].value) {
            Ok(t) => {
                let ghost pre_slots = slots@;
                proof {
                    assert(fv[fi as int].1 == fields@[fi as int].1@);
                }
                slots.set(fi, Option::Some(t));
                proof {
                    assert(slots_view(slots@) =~= slots_view(pre_slots).update(
                        fi as int,
                        Option::Some(t@),
                    ));
                    assert(cv.skip(i as int).skip(1) =~= cv.skip(i + 1));
                }
            },
            Err(e) => {
                proof {
                    assert(fv[fi as int].1 == fields@[fi as int].1@);
                }
                return Err(e);
            },
        }
        i = i + 1;
    }
    proof {
        assert(cv.skip(i as int).len() == 0);
        assert(spec_decode_struct(shape@, cv.skip(i as int), slots_view(slots@)) == Ok::<
            Seq<Option<TypedModel>>,
            ErrorKind,
        >(slots_view(slots@)));
    }
    let ghost finalv = slots_view(slots@);
    proof {
        assert(spec_decode_struct(shape@, cv, init) == Ok::<Seq<Option<TypedModel>>, ErrorKind>(
            finalv,
        ));
    }
    let mut k: usize = 0;
    while k < slots.len()
        invariant
            *shape == Shape::Struct(*fields),
            fv == crate::shape::shape_fields_view(fields@),
            fv.len() == fields@.len(),
            forall|j: int| 0 <= j < fields@.len() ==> #[trigger] fv[j] == (
                fields@[j].0@,
                fields@[j].1@,
            ),
            vm == ValueModel::Section(cv),
            init == empty_slots(fv.len()),
            spec_decode_struct(shape@, cv, init) == Ok::<Seq<Option<TypedModel>>, ErrorKind>(
                finalv,
            ),
            finalv == slots_view(slots@),
            slots@.len() == finalv.len(),
            finalv.len() == fields@.len(),
            k <= slots@.len(),
            forall|j: int| 0 <= j < k ==> #[trigger] finalv[j] is Some,
        decreases slots@.len() - k,
    {
        let missing = match &slots[k] {
            Option::None => true,
            Option::Some(_) => false,
        };
        if missing {
            proof {
                assert(finalv[k as int] is None);
            }
            return Err(Error::Custom(String::from_str("missing field")));
        }
        k = k + 1;
    }
    let mut res: Vec<(String, TypedValue)> = Vec::new();
    let mut taken = slots;
    let mut g: usize = 0;
    proof {
        assert(slots_view(taken@) =~= finalv.skip(0));
    }
    while g < fields.len()
        invariant
            *shape == Shape::Struct(*fields),
            fv == crate::shape::shape_fields_view(fields@),
            fv.len() == fields@.len(),
            forall|j: int| 0 <= j < fields@.len() ==> #[trigger] fv[j] == (
                fields@[j].0@,
                fields@[j].1@,
            ),
            vm == ValueModel::Section(cv),
            init == empty_slots(fv.len()),
            spec_decode_struct(shape@, cv, init) == Ok::<Seq<Option<TypedModel>>, ErrorKind>(
                finalv,
            ),
            forall|j: int| 0 <= j < finalv.len() ==> #[trigger] finalv[j] is Some,
            finalv.len() == fields@.len(),
            g <= fields@.len(),
            taken@.len() == fields@.len() - g,
            slots_view(taken@) == finalv.skip(g as int),
            res@.len() == g,
            forall|j: int| 0 <= j < g ==> #[trigger] res@[j] == (
                fields@[j].0,
                res@[j].1,
            ) && res@[j].0@ == fv[j].0 && finalv[j] == Option::Some(res@[j].1@),
        decreases fields@.len() - g,
    {
        let ghost pre_taken = taken@;
        proof {
            assert(slots_view(pre_taken)[0] == finalv.skip(g as int)[0]);
            assert(finalv.skip(g as int)[0] == finalv[g as int]);
        }
        let t = match taken.remove(0) {
            Option::Some(t) => t,
            Option::None => {
                proof {
                    assert(finalv[g as int] is Some);
                    assert(false);
                }
                return Err(Error::Custom(String::from_str("missing field")));
            },
        };
        proof {
            assert(finalv[g as int] == Option::Some(t@));
            assert(slots_view(taken@) =~= finalv.skip(g + 1)) by {
                assert(taken@ =~= pre_taken.skip(1));
                assert forall|j: int| 0 <= j < taken@.len() implies slots_view(taken@)[j]
                    == finalv.skip(g + 1)[j] by {
                    assert(taken@[j] == pre_taken[j + 1]);
                    assert(slots_view(pre_taken)[j + 1] == finalv.skip(g as int)[j + 1]);
                }
            }
        }
        let name = fields[g].0.clone();
        proof {
            assert(name@ == fields@[g as int].0@);
        }
        let ghost pre_res = res@;
        res.push((name, t));
        proof {
            assert forall|j: int| 0 <= j < g + 1 implies #[trigger] res@[j].0@ == fv[j].0
                && finalv[j] == Option::Some(res@[j].1@) by {
                if j == g {
                    assert(res@[j] == (name, t));
                    assert(res@[j].0@ == name@);
                    assert(res@[j].1 == t);
                    assert(finalv[j] == Option::Some(t@));
                } else {
                    assert(res@[j] == pre_res[j]);
                    assert(pre_res[j].0@ == fv[j].0 && finalv[j] == Option::Some(pre_res[j].1@));
                }
            }
        }
        g = g + 1;
    }
    proof {
        crate::shape::lemma_typed_fields_view(res@);
        assert(crate::shape::typed_fields_view(res@) =~= zip_fields(fv, finalv));
    }
    Ok(TypedValue::Struct(res))
}


/// Decode a section's children, sorted by key, as the elements of a
/// sequence.
#[verifier::rlimit(100)]
fn decode_sequence_section(
    shape: &Shape,
    elem: &Box<Shape>,
    kvs: &Vec<KeyValue>,
    Ghost(vm): Ghost<ValueModel>,
) -> (r: Result<TypedValue, Error>)
    requires
        shape_wf(shape@),
        *shape == Shape::Sequence(*elem),
        vm == ValueModel::Section(kvs_view(kvs@)),
    ensures
        match r {
            Ok(t) => decode_gives(spec_decode(shape@, vm), t),
            Err(e) => decode_fails(spec_decode(shape@, vm), e),
        },
    decreases value_size(vm), shape, 0int,
{

                let copied = clone_kvs(kvs);
                let sorted = sort_by_key(copied);
                let ghost sv = spec_sort_kvs(kvs_view(kvs@));
                proof {
                    lemma_kvs_view(sorted@);
                    lemma_sort_size(kvs_view(kvs@));
                    assert(value_size(vm) == 1 + kvs_size(kvs_view(kvs@)));
                    assert(sv.skip(0) =~= sv);
                }
                let mut out: Vec<TypedValue> = Vec::new();
                let mut i: usize = 0;
                proof {
                    crate::shape::lemma_typed_seq_view(out@);
                    assert(crate::shape::typed_seq_view(out@) =~= Seq::<TypedModel>::empty());
                }
                while i < sorted.len()
                    invariant
                        shape_wf(shape@),
                        vm == ValueModel::Section(kvs_view(kvs@)),
                        sv == spec_sort_kvs(kvs_view(kvs@)),
                        kvs_view(sorted@) == sv,
                        sorted@.len() == sv.len(),
                        forall|j: int| 0 <= j < sorted@.len() ==> #[trigger] sorted@[j]@ == sv[j],
                        kvs_size(sv) == kvs_size(kvs_view(kvs@)),
                        value_size(vm) == 1 + kvs_size(kvs_view(kvs@)),
                        i <= sorted@.len(),
                        spec_decode_elems(shape->Sequence_0@, sv) == extend_elems(
                            crate::shape::typed_seq_view(out@),
                            spec_decode_elems(shape->Sequence_0@, sv.skip(i as int)),
                        ),
                        *shape == Shape::Sequence(*elem),
                    decreases sorted@.len() - i,
                {
                    proof {
                        lemma_kvs_size_child(sv, i as int);
                        assert(decreases_to!(*shape => shape->Sequence_0));
                    }
                    match decode_value(elem, &sorted[i].value) {
                        Ok(t) => {
                            proof {
                                let ghost pre = crate::shape::typed_seq_view(out@);
                                crate::shape::lemma_typed_seq_view(out@.push(t));
                                crate::shape::lemma_typed_seq_view(out@);
                                assert(crate::shape::typed_seq_view(out@.push(t)) =~= pre
                                    + seq![t@]);
                                assert(sv.skip(i as int)[0] == sv[i as int]);
                                assert(sv[i as int].value == sorted@[i as int]@.value);
                                assert(sv.skip(i as int).skip(1) =~= sv.skip(i + 1));
                                match spec_decode_elems(shape->Sequence_0@, sv.skip(i + 1)) {
                                    Result::<Seq<TypedModel>, ErrorKind>::Ok(ts) => {
                                        assert(pre + (seq![t@] + ts) =~= (pre + seq![t@]) + ts);
                                    },
                                    Result::<Seq<TypedModel>, ErrorKind>::Err(_) => {},
                                }
                            }
                            out.push(t);
                        },
                        Err(e) => {
                            proof {
                                assert(sv.skip(i as int)[0] == sv[i as int]);
                                assert(sv[i as int].value == sorted@[i as int]@.value);
                            }
                            return Err(e);
                        },
                    }
                    i = i + 1;
                }
                proof {
                    assert(sv.skip(i as int).len() == 0);
                    assert(crate::shape::typed_seq_view(out@) + Seq::<TypedModel>::empty()
                        =~= crate::shape::typed_seq_view(out@));
                }
                proof {
                    assert(spec_decode(shape@, vm) == Ok::<TypedModel, ErrorKind>(
                        TypedModel::Sequence(crate::shape::typed_seq_view(out@)),
                    ));
                }
                Ok(TypedValue::Sequence(out))
}

/// Decode a section's children, in source order, as the entries of a
/// mapping: each key read as a scalar, each value with the value shape.
#[verifier::rlimit(100)]
fn decode_mapping_section(
    shape: &Shape,
    ksh: &Box<Shape>,
    vsh: &Box<Shape>,
    kvs: &Vec<KeyValue>,
    Ghost(vm): Ghost<ValueModel>,
) -> (r: Result<TypedValue, Error>)
    requires
        shape_wf(shape@),
        *shape == Shape::Mapping(*ksh, *vsh),
        vm == ValueModel::Section(kvs_view(kvs@)),
    ensures
        match r {
            Ok(t) => decode_gives(spec_decode(shape@, vm), t),
            Err(e) => decode_fails(spec_decode(shape@, vm), e),
        },
    decreases value_size(vm), shape, 0int,
{

                let ghost cv = kvs_view(kvs@);
                proof {
                    lemma_kvs_view(kvs@);
                    assert(value_size(vm) == 1 + kvs_size(cv));
                    assert(cv.skip(0) =~= cv);
                }
                let mut out: Vec<(TypedValue, TypedValue)> = Vec::new();
                let mut i: usize = 0;
                proof {
                    crate::shape::lemma_typed_pairs_view(out@);
                    assert(crate::shape::typed_pairs_view(out@) =~= Seq::<
                        (TypedModel, TypedModel),
                    >::empty());
                }
                while i < kvs.len()
                    invariant
                        shape_wf(shape@),
                        vm == ValueModel::Section(kvs_view(kvs@)),
                        cv == kvs_view(kvs@),
                        kvs@.len() == cv.len(),
                        forall|j: int| 0 <= j < kvs@.len() ==> #[trigger] kvs@[j]@ == cv[j],
                        value_size(vm) == 1 + kvs_size(cv),
                        i <= kvs@.len(),
                        spec_decode_entries(shape@, cv) == extend_entries(
                            crate::shape::typed_pairs_view(out@),
                            spec_decode_entries(shape@, cv.skip(i as int)),
                        ),
                        *shape == Shape::Mapping(*ksh, *vsh),
                    decreases kvs@.len() - i,
                {
                    proof {
                        lemma_kvs_size_child(cv, i as int);
                        lemma_value_size_pos(cv[i as int].value);
                        assert(decreases_to!(*shape => shape->Mapping_0));
                        assert(decreases_to!(*shape => shape->Mapping_1));
                        assert(cv.skip(i as int)[0] == cv[i as int]);
                        assert(cv[i as int] == kvs@[i as int]@);
                    }
                    let keyv = Value::Value(kvs[i].key.clone());
                    proof {
                        assert(keyv@ == ValueModel::Scalar(cv[i as int].key));
                        assert(value_size(keyv@) == 1);
                        assert(kvs_size(cv) >= 2) by {
                            assert(kvs_size(cv) == value_size(cv[0].value) + 1 + kvs_size(
                                cv.skip(1),
                            ));
                            lemma_value_size_pos(cv[0].value);
                        }
                    }
                    let kt = match decode_value(ksh, &keyv) {
                        Ok(kt) => kt,
                        Err(e) => {
                            return Err(e);
                        },
                    };
                    let vt = match decode_value(vsh, &kvs[i].value) {
                        Ok(vt) => vt,
                        Err(e) => {
                            return Err(e);
                        },
                    };
                    proof {
                        let ghost pre = crate::shape::typed_pairs_view(out@);
                        crate::shape::lemma_typed_pairs_view(out@.push((kt, vt)));
                        crate::shape::lemma_typed_pairs_view(out@);
                        assert(crate::shape::typed_pairs_view(out@.push((kt, vt))) =~= pre
                            + seq![(kt@, vt@)]);
                        assert(cv.skip(i as int).skip(1) =~= cv.skip(i + 1));
                        match spec_decode_entries(shape@, cv.skip(i + 1)) {
                            Result::<Seq<(TypedModel, TypedModel)>, ErrorKind>::Ok(ps) => {
                                assert(pre + (seq![(kt@, vt@)] + ps) =~= (pre + seq![(kt@, vt@)])
                                    + ps);
                            },
                            Result::<Seq<(TypedModel, TypedModel)>, ErrorKind>::Err(_) => {},
                        }
                    }
                    out.push((kt, vt));
                    i = i + 1;
                }
                proof {
                    assert(cv.skip(i as int).len() == 0);
                    assert(crate::shape::typed_pairs_view(out@) + Seq::<
                        (TypedModel, TypedModel),
                    >::empty() =~= crate::shape::typed_pairs_view(out@));
                }
                proof {
                    assert(spec_decode(shape@, vm) == Ok::<TypedModel, ErrorKind>(
                        TypedModel::Mapping(crate::shape::typed_pairs_view(out@)),
                    ));
                }
                Ok(TypedValue::Mapping(out))
}

/// Whether a decode result is a success holding exactly the model of `t`.
pub open spec fn decode_gives(d: Result<TypedModel, ErrorKind>, t: TypedValue) -> bool {
    d is Ok && d->Ok_0 == t@
}

/// Whether a decode result is a failure of exactly the kind of `e`.
pub open spec fn decode_fails(d: Result<TypedModel, ErrorKind>, e: Error) -> bool {
    d is Err && d->Err_0 == e.kind()
}

/// Decode a scalar as a character: its text must be exactly one character.
fn decode_char_scalar(shape: &Shape, s: &String, Ghost(vm): Ghost<ValueModel>) -> (r: Result<
    TypedValue,
    Error,
>)
    requires
        *shape == Shape::Char,
        vm == ValueModel::Scalar(s@),
    ensures
        match r {
            Ok(t) => decode_gives(spec_decode(shape@, vm), t),
            Err(e) => decode_fails(spec_decode(shape@, vm), e),
        },
{
    if s.as_str().unicode_len() == 1 {
        let c = s.as_str().get_char(0);
        let tv = TypedValue::Char(c);
        proof {
            crate::shape::lemma_char_value_view(c);
            assert(spec_decode(shape@, vm) == Ok::<TypedModel, ErrorKind>(TypedModel::Char(c)));
            assert(decode_gives(spec_decode(shape@, vm), tv));
        }
        Ok(tv)
    } else {
        Err(Error::ExpectedCharError)
    }
}

/// Decode tree node `v` as shape `shape` asks, exactly as `spec_decode`
/// says.
#[verifier::rlimit(100)]
fn decode_value(shape: &Shape, v: &Value) -> (r: Result<TypedValue, Error>)
    requires
        shape_wf(shape@),
    ensures
        match r {
            Ok(t) => decode_gives(spec_decode(shape@, v@), t),
            Err(e) => decode_fails(spec_decode(shape@, v@), e),
        },
    decreases value_size(v@), shape, 1int,
{
    match shape {
        Shape::Bool => match v {
            Value::Value(s) => {
                let cs = str_to_chars(s.as_str());
                if cs.len() == 1 && cs[0] == '0' {
                    let tv = TypedValue::Bool(false);
                    proof {
                        assert(s@ =~= seq!['0']);
                        assert(spec_decode(shape@, v@) == Ok::<TypedModel, ErrorKind>(tv@));
                    }
                    Ok(tv)
                } else if cs.len() == 1 && cs[0] == '1' {
                    let tv = TypedValue::Bool(true);
                    proof {
                        assert(s@ =~= seq!['1']);
                        assert(spec_decode(shape@, v@) == Ok::<TypedModel, ErrorKind>(tv@));
                    }
                    Ok(tv)
                } else {
                    proof {
                        assert(s@ != seq!['0']) by {
                            if s@ == seq!['0'] {
                                assert(cs@.len() == 1 && cs@[0] == '0');
                            }
                        }
                        assert(s@ != seq!['1']) by {
                            if s@ == seq!['1'] {
                                assert(cs@.len() == 1 && cs@[0] == '1');
                            }
                        }
                    }
                    Err(Error::ParseBoolError)
                }
            },
            Value::Section(_) => Err(Error::ExpectedValueError),
        },
        Shape::Unsigned(bits) => match v {
            Value::Value(s) => {
                let cs = str_to_chars(s.as_str());
                match parse_u64_chars(&cs) {
                    Option::None => Err(Error::ExpectedValueError),
                    Option::Some(n) => {
                        if *bits >= 64 || n < pow2_u64(*bits) {
                            let tv = TypedValue::Unsigned(n);
                            proof {
                                assert(spec_decode(shape@, v@) == Ok::<TypedModel, ErrorKind>(
                                    tv@,
                                ));
                            }
                            Ok(tv)
                        } else {
                            Err(Error::ExpectedValueError)
                        }
                    },
                }
            },
            Value::Section(_) => Err(Error::ExpectedValueError),
        },
        Shape::Signed(bits) => match v {
            Value::Value(s) => {
                let cs = str_to_chars(s.as_str());
                match parse_i64_chars(&cs) {
                    Option::None => Err(Error::ExpectedValueError),
                    Option::Some(n) => {
                        if *bits >= 64 {
                            let tv = TypedValue::Signed(n);
                            proof {
                                assert(spec_decode(shape@, v@) == Ok::<TypedModel, ErrorKind>(
                                    tv@,
                                ));
                            }
                            Ok(tv)
                        } else {
                            let bound = pow2_u64(*bits - 1);
                            proof {
                                lemma_pow2_mono(*bits - 1, 62);
                                lemma_pow2_le_62();
                            }
                            if -(bound as i64) <= n && n < (bound as i64) {
                                let tv = TypedValue::Signed(n);
                                proof {
                                    assert(spec_decode(shape@, v@) == Ok::<TypedModel, ErrorKind>(
                                        tv@,
                                    ));
                                }
                                Ok(tv)
                            } else {
                                Err(Error::ExpectedValueError)
                            }
                        }
                    },
                }
            },
            Value::Section(_) => Err(Error::ExpectedValueError),
        },
        Shape::Char => match v {
            Value::Value(s) => decode_char_scalar(shape, s, Ghost(v@)),
            Value::Section(_) => Err(Error::ExpectedValueError),
        },
        Shape::Str => match v {
            Value::Value(s) => {
                let c = s.clone();
                let tv = TypedValue::Str(c);
                proof {
                    assert(spec_decode(shape@, v@) == Ok::<TypedModel, ErrorKind>(tv@));
                }
                Ok(tv)
            },
            Value::Section(_) => Err(Error::ExpectedValueError),
        },
        Shape::Unit => match v {
            Value::Value(s) => {
                if s.as_str().unicode_len() == 0 {
                    let tv = TypedValue::Unit;
                    proof {
                        assert(spec_decode(shape@, v@) == Ok::<TypedModel, ErrorKind>(tv@));
                    }
                    Ok(tv)
                } else {
                    Err(Error::ExpectedUnitError)
                }
            },
            Value::Section(_) => Err(Error::ExpectedValueError),
        },
        Shape::Optional(inner) => match v {
            Value::Value(s) => {
                if s.as_str().unicode_len() == 0 {
                    let tv = TypedValue::OptNone;
                    proof {
                        assert(spec_decode(shape@, v@) == Ok::<TypedModel, ErrorKind>(tv@));
                    }
                    Ok(tv)
                } else {
                    proof {
                        assert(decreases_to!(*shape => shape->Optional_0));
                    }
                    match decode_value(inner, v) {
                        Ok(t) => {
                            let ghost tm = t@;
                            let tv = TypedValue::OptSome(Box::new(t));
                            proof {
                                assert(tv@ == TypedModel::OptSome(Box::new(tm)));
                                assert(spec_decode(shape@, v@) == Ok::<TypedModel, ErrorKind>(
                                    tv@,
                                ));
                            }
                            Ok(tv)
                        },
                        Err(e) => Err(e),
                    }
                }
            },
            Value::Section(_) => Err(Error::ExpectedValueError),
        },
        Shape::Sequence(elem) => match v {
            Value::Value(_) => Err(Error::ExpectedSectionError),
            Value::Section(kvs) => decode_sequence_section(shape, elem, kvs, Ghost(v@)),
        },
        Shape::Mapping(ksh, vsh) => match v {
            Value::Value(_) => Err(Error::ExpectedSectionError),
            Value::Section(kvs) => decode_mapping_section(shape, ksh, vsh, kvs, Ghost(v@)),
        },
        Shape::Struct(fields) => match v {
            Value::Value(_) => Err(Error::ExpectedSectionError),
            Value::Section(kvs) => decode_struct_section(shape, fields, kvs, Ghost(v@)),
        },
        Shape::Enum(names) => match v {
            Value::Value(s) => {
                let ghost nv = crate::shape::names_view(names@);
                let mut i: usize = 0;
                while i < names.len()
                    invariant
                        *shape == Shape::Enum(*names),
                        *v == Value::Value(*s),
                        nv == crate::shape::names_view(names@),
                        nv.len() == names@.len(),
                        i <= names@.len(),
                        forall|j: int| 0 <= j < i ==> nv[j] != s@,
                    decreases names@.len() - i,
                {
                    if names[i] == *s {
                        proof {
                            assert(nv[i as int] == s@);
                            assert(nv.contains(s@));
                        }
                        let c = s.clone();
                        let tv = TypedValue::Enum(c);
                        proof {
                            assert(spec_decode(shape@, v@) == Ok::<TypedModel, ErrorKind>(tv@));
                        }
                        return Ok(tv);
                    }
                    i = i + 1;
                }
                proof {
                    assert(!nv.contains(s@)) by {
                        if nv.contains(s@) {
                            let j = choose|j: int| 0 <= j < nv.len() && nv[j] == s@;
                        }
                    }
                }
                Err(Error::Custom(String::from_str("unknown enum variant")))
            },
            Value::Section(_) => Err(Error::ExpectedValueError),
        },
    }
}

impl Shape {
    /// Whether this shape is well formed: every integer width it mentions
    /// lies between one and sixty-four bits. Decoding demands this.
    pub fn well_formed(&self) -> (r: bool)
        ensures
            r == shape_wf(self@),
        decreases self,
    {
        match self {
            Shape::Unsigned(b) => 1 <= *b && *b <= 64,
            Shape::Signed(b) => 1 <= *b && *b <= 64,
            Shape::Optional(inner) => {
                proof {
                    assert(decreases_to!(*self => self->Optional_0));
                }
                inner.well_formed()
            },
            Shape::Sequence(elem) => {
                proof {
                    assert(decreases_to!(*self => self->Sequence_0));
                }
                elem.well_formed()
            },
            Shape::Mapping(k, v) => {
                proof {
                    assert(decreases_to!(*self => self->Mapping_0));
                    assert(decreases_to!(*self => self->Mapping_1));
                }
                k.well_formed() && v.well_formed()
            },
            Shape::Struct(fields) => {
                let ghost fv = crate::shape::shape_fields_view(fields@);
                proof {
                    crate::shape::lemma_shape_fields_view(fields@);
                }
                let mut i: usize = 0;
                while i < fields.len()
                    invariant
                        *self == Shape::Struct(*fields),
                        fv == crate::shape::shape_fields_view(fields@),
                        fv.len() == fields@.len(),
                        forall|j: int| 0 <= j < fields@.len() ==> #[trigger] fv[j] == (
                            fields@[j].0@,
                            fields@[j].1@,
                        ),
                        i <= fields@.len(),
                        forall|j: int| 0 <= j < i ==> shape_wf(#[trigger] fv[j].1),
                    decreases fields@.len() - i,
                {
                    proof {
                        assert(decreases_to!(*self => self->Struct_0));
                        assert(self->Struct_0 == *fields);
                        assert(decreases_to!(fields@ => fields@[i as int]));
                        assert(decreases_to!(fields@[i as int] => fields@[i as int].1));
                    }
                    if !fields[i].1.well_formed() {
                        proof {
                            assert(!shape_wf(fv[i as int].1));
                            assert(!fields_wf(fv));
                        }
                        return false;
                    }
                    i = i + 1;
                }
                proof {
                    assert(fields_wf(fv));
                }
                true
            },
            _ => true,
        }
    }
}

/// The decoder: holds one tree node and reads it as a caller's shape asks.
#[derive(Debug)]
pub struct Deserializer {
    input: Value,
}

impl View for Deserializer {
    type V = ValueModel;

    /// The tree node being read.
    closed spec fn view(&self) -> ValueModel {
        self.input@
    }
}

impl Deserializer {
    /// A decoder over the given tree node.
    pub fn from_kv(input: Value) -> (r: Deserializer)
        ensures
            r@ == input@,
    {
        Deserializer { input }
    }

    /// The scalar text of the node: the text when it is a scalar, and a
    /// shape mismatch when it is a section.
    pub fn parse_value(&self) -> (r: Result<String, Error>)
        ensures
            match r {
                Ok(s) => self@ matches ValueModel::Scalar(t) && s@ == t,
                Err(e) => self@ is Section && e.kind() == ErrorKind::ExpectedValueError,
            },
    {
        match &self.input {
            Value::Value(v) => Ok(v.clone()),
            Value::Section(_) => Err(Error::ExpectedValueError),
        }
    }

    /// Read the node as `shape` asks, exactly as `spec_decode` says.
    pub fn deserialize(&self, shape: &Shape) -> (r: Result<TypedValue, Error>)
        requires
            shape_wf(shape@),
        ensures
            match r {
                Ok(t) => decode_gives(spec_decode(shape@, self@), t),
                Err(e) => decode_fails(spec_decode(shape@, self@), e),
            },
    {
        decode_value(shape, &self.input)
    }
}

/// Whether a whole-text decode succeeded with exactly the model of `t`.
pub open spec fn from_str_gives(d: Result<TypedModel, ErrorKind>, t: TypedValue) -> bool {
    d is Ok && d->Ok_0 == t@
}

/// Decode a whole text as `shape` asks: the text is parsed as file items,
/// the pairs wrapped in one section, and that section read, exactly as
/// `spec_from_str` says.
pub fn from_str(input: &str, shape: &Shape) -> (r: Result<TypedValue, Error>)
    requires
        shape_wf(shape@),
    ensures
        match r {
            Ok(t) => from_str_gives(spec_from_str(input@, shape@), t),
            Err(e) => spec_from_str(input@, shape@) is Err && spec_from_str(input@, shape@)
                ->Err_0 == e.kind(),
        },
{
    let parsed = match parse_input(input) {
        Ok(f) => f,
        Err(e) => {
            return Err(e);
        },
    };
    let deserializer = Deserializer::from_kv(Value::Section(parsed.kvs));
    deserializer.deserialize(shape)
}

} // verus!
