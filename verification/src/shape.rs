//! The shapes a caller's type can declare, and the dynamic typed values the
//! codec maps between trees and callers.

use vstd::prelude::*;

verus! {

broadcast use vstd::std_specs::vec::group_vec_axioms, vstd::seq::group_seq_axioms;

/// Mathematical model of a shape.
pub enum ShapeModel {
    Bool,
    Unsigned(u32),
    Signed(u32),
    Char,
    Str,
    Unit,
    Optional(Box<ShapeModel>),
    Sequence(Box<ShapeModel>),
    Mapping(Box<ShapeModel>, Box<ShapeModel>),
    Struct(Seq<(Seq<char>, ShapeModel)>),
    Enum(Seq<Seq<char>>),
}

/// Mathematical model of a typed value.
pub enum TypedModel {
    Bool(bool),
    Unsigned(u64),
    Signed(i64),
    Char(char),
    Str(Seq<char>),
    Unit,
    OptNone,
    OptSome(Box<TypedModel>),
    Sequence(Seq<TypedModel>),
    Mapping(Seq<(TypedModel, TypedModel)>),
    Struct(Seq<(Seq<char>, TypedModel)>),
    Enum(Seq<char>),
}

/// The structural kind a decode step expects: a scalar primitive, an
/// optional read from a scalar, a sequence, a mapping or struct read from a
/// section, or a unit enum. Integer widths are in bits, at most 64.
#[derive(Debug)]
pub enum Shape {
    Bool,
    Unsigned(u32),
    Signed(u32),
    Char,
    Str,
    Unit,
    Optional(Box<Shape>),
    Sequence(Box<Shape>),
    Mapping(Box<Shape>, Box<Shape>),
    Struct(Vec<(String, Shape)>),
    Enum(Vec<String>),
}

/// A dynamic typed value: what the decoder produces and the encoder
/// consumes.
#[derive(Debug)]
pub enum TypedValue {
    Bool(bool),
    Unsigned(u64),
    Signed(i64),
    Char(char),
    Str(String),
    Unit,
    OptNone,
    OptSome(Box<TypedValue>),
    Sequence(Vec<TypedValue>),
    Mapping(Vec<(TypedValue, TypedValue)>),
    Struct(Vec<(String, TypedValue)>),
    Enum(String),
}

/// The models of a field list of a shape, in order.
pub open spec fn shape_fields_view(fs: Seq<(String, Shape)>) -> Seq<(Seq<char>, ShapeModel)>
    decreases fs,
{
    if fs.len() == 0 {
        Seq::empty()
    } else {
        shape_fields_view(fs.drop_last()).push((fs.last().0@, fs.last().1@))
    }
}

/// The models of a variant-name list, in order.
pub open spec fn names_view(ns: Seq<String>) -> Seq<Seq<char>> {
    Seq::new(ns.len(), |i: int| ns[i]@)
}

impl View for Shape {
    type V = ShapeModel;

    open spec fn view(&self) -> ShapeModel
        decreases self,
    {
        match self {
            Shape::Bool => ShapeModel::Bool,
            Shape::Unsigned(b) => ShapeModel::Unsigned(*b),
            Shape::Signed(b) => ShapeModel::Signed(*b),
            Shape::Char => ShapeModel::Char,
            Shape::Str => ShapeModel::Str,
            Shape::Unit => ShapeModel::Unit,
            Shape::Optional(s) => ShapeModel::Optional(Box::new((**s)@)),
            Shape::Sequence(s) => ShapeModel::Sequence(Box::new((**s)@)),
            Shape::Mapping(k, v) => ShapeModel::Mapping(Box::new((**k)@), Box::new((**v)@)),
            Shape::Struct(fs) => ShapeModel::Struct(shape_fields_view(fs@)),
            Shape::Enum(ns) => ShapeModel::Enum(names_view(ns@)),
        }
    }
}

/// The models of a sequence of typed values, in order.
pub open spec fn typed_seq_view(vs: Seq<TypedValue>) -> Seq<TypedModel>
    decreases vs,
{
    if vs.len() == 0 {
        Seq::empty()
    } else {
        typed_seq_view(vs.drop_last()).push(vs.last()@)
    }
}

/// The models of a sequence of entries, in order.
pub open spec fn typed_pairs_view(ps: Seq<(TypedValue, TypedValue)>) -> Seq<
    (TypedModel, TypedModel),
>
    decreases ps,
{
    if ps.len() == 0 {
        Seq::empty()
    } else {
        typed_pairs_view(ps.drop_last()).push((ps.last().0@, ps.last().1@))
    }
}

/// The models of a sequence of named fields, in order.
pub open spec fn typed_fields_view(fs: Seq<(String, TypedValue)>) -> Seq<(Seq<char>, TypedModel)>
    decreases fs,
{
    if fs.len() == 0 {
        Seq::empty()
    } else {
        typed_fields_view(fs.drop_last()).push((fs.last().0@, fs.last().1@))
    }
}

impl View for TypedValue {
    type V = TypedModel;

    open spec fn view(&self) -> TypedModel
        decreases self,
    {
        match self {
            TypedValue::Bool(b) => TypedModel::Bool(*b),
            TypedValue::Unsigned(n) => TypedModel::Unsigned(*n),
            TypedValue::Signed(n) => TypedModel::Signed(*n),
            TypedValue::Char(c) => TypedModel::Char(*c),
            TypedValue::Str(s) => TypedModel::Str(s@),
            TypedValue::Unit => TypedModel::Unit,
            TypedValue::OptNone => TypedModel::OptNone,
            TypedValue::OptSome(v) => TypedModel::OptSome(Box::new((**v)@)),
            TypedValue::Sequence(vs) => TypedModel::Sequence(typed_seq_view(vs@)),
            TypedValue::Mapping(ps) => TypedModel::Mapping(typed_pairs_view(ps@)),
            TypedValue::Struct(fs) => TypedModel::Struct(typed_fields_view(fs@)),
            TypedValue::Enum(n) => TypedModel::Enum(n@),
        }
    }
}

impl PartialEq for TypedValue {
    /// Structural equality: same constructor, same contents. Nothing is
    /// promised of it in contracts; it serves callers comparing results.
    fn eq(&self, other: &TypedValue) -> bool
        decreases self,
    {
        match (self, other) {
            (TypedValue::Bool(a), TypedValue::Bool(b)) => a == b,
            (TypedValue::Unsigned(a), TypedValue::Unsigned(b)) => a == b,
            (TypedValue::Signed(a), TypedValue::Signed(b)) => a == b,
            (TypedValue::Char(a), TypedValue::Char(b)) => a == b,
            (TypedValue::Str(a), TypedValue::Str(b)) => *a == *b,
            (TypedValue::Unit, TypedValue::Unit) => true,
            (TypedValue::OptNone, TypedValue::OptNone) => true,
            (TypedValue::Enum(a), TypedValue::Enum(b)) => *a == *b,
            _ => self.eq_compound(other),
        }
    }
}

impl vstd::std_specs::cmp::PartialEqSpecImpl for TypedValue {
    open spec fn obeys_eq_spec() -> bool {
        false
    }

    open spec fn eq_spec(&self, other: &TypedValue) -> bool {
        self@ == other@
    }
}

impl TypedValue {
    /// Structural equality of the compound constructors.
    fn eq_compound(&self, other: &TypedValue) -> bool
        decreases self, 1int,
    {
        match (self, other) {
            (TypedValue::OptSome(a), TypedValue::OptSome(b)) => {
                proof {
                    assert(decreases_to!(*self => self->OptSome_0));
                }
                (**a).eq(&**b)
            },
            (TypedValue::Sequence(a), TypedValue::Sequence(b)) => {
                if a.len() != b.len() {
                    return false;
                }
                let mut i: usize = 0;
                while i < a.len()
                    invariant
                        *self == TypedValue::Sequence(*a),
                        a@.len() == b@.len(),
                        i <= a@.len(),
                    decreases a@.len() - i,
                {
                    proof {
                        assert(decreases_to!(*self => self->Sequence_0));
                        assert(self->Sequence_0 == *a);
                        assert(decreases_to!(a@ => a@[i as int]));
                    }
                    if !a[i].eq(&b[i]) {
                        return false;
                    }
                    i = i + 1;
                }
                true
            },
            (TypedValue::Mapping(a), TypedValue::Mapping(b)) => {
                if a.len() != b.len() {
                    return false;
                }
                let mut i: usize = 0;
                while i < a.len()
                    invariant
                        *self == TypedValue::Mapping(*a),
                        a@.len() == b@.len(),
                        i <= a@.len(),
                    decreases a@.len() - i,
                {
                    proof {
                        assert(decreases_to!(*self => self->Mapping_0));
                        assert(self->Mapping_0 == *a);
                        assert(decreases_to!(a@ => a@[i as int]));
                        assert(decreases_to!(a@[i as int] => a@[i as int].0));
                        assert(decreases_to!(a@[i as int] => a@[i as int].1));
                    }
                    if !a[i].0.eq(&b[i].0) || !a[i].1.eq(&b[i].1) {
                        return false;
                    }
                    i = i + 1;
                }
                true
            },
            (TypedValue::Struct(a), TypedValue::Struct(b)) => {
                if a.len() != b.len() {
                    return false;
                }
                let mut i: usize = 0;
                while i < a.len()
                    invariant
                        *self == TypedValue::Struct(*a),
                        a@.len() == b@.len(),
                        i <= a@.len(),
                    decreases a@.len() - i,
                {
                    proof {
                        assert(decreases_to!(*self => self->Struct_0));
                        assert(self->Struct_0 == *a);
                        assert(decreases_to!(a@ => a@[i as int]));
                        assert(decreases_to!(a@[i as int] => a@[i as int].1));
                    }
                    if !(a[i].0 == b[i].0) || !a[i].1.eq(&b[i].1) {
                        return false;
                    }
                    i = i + 1;
                }
                true
            },
            _ => false,
        }
    }
}

/// `typed_seq_view` is the pointwise view of its argument.
pub proof fn lemma_typed_seq_view(vs: Seq<TypedValue>)
    ensures
        typed_seq_view(vs).len() == vs.len(),
        forall|i: int| 0 <= i < vs.len() ==> #[trigger] typed_seq_view(vs)[i] == vs[i]@,
    decreases vs,
{
    if vs.len() > 0 {
        lemma_typed_seq_view(vs.drop_last());
        assert(typed_seq_view(vs) == typed_seq_view(vs.drop_last()).push(vs.last()@));
        assert forall|i: int| 0 <= i < vs.len() implies #[trigger] typed_seq_view(vs)[i]
            == vs[i]@ by {
            if i < vs.len() - 1 {
                assert(vs.drop_last()[i] == vs[i]);
                assert(typed_seq_view(vs)[i] == typed_seq_view(vs.drop_last())[i]);
            }
        }
    }
}

/// `typed_pairs_view` is the pointwise view of its argument.
pub proof fn lemma_typed_pairs_view(ps: Seq<(TypedValue, TypedValue)>)
    ensures
        typed_pairs_view(ps).len() == ps.len(),
        forall|i: int| 0 <= i < ps.len() ==> #[trigger] typed_pairs_view(ps)[i] == (
            ps[i].0@,
            ps[i].1@,
        ),
    decreases ps,
{
    if ps.len() > 0 {
        lemma_typed_pairs_view(ps.drop_last());
        assert(typed_pairs_view(ps) == typed_pairs_view(ps.drop_last()).push((ps.last().0@, ps.last().1@)));
        assert forall|i: int| 0 <= i < ps.len() implies #[trigger] typed_pairs_view(ps)[i] == (
            ps[i].0@,
            ps[i].1@,
        ) by {
            if i < ps.len() - 1 {
                assert(ps.drop_last()[i] == ps[i]);
                assert(typed_pairs_view(ps)[i] == typed_pairs_view(ps.drop_last())[i]);
            }
        }
    }
}

/// `typed_fields_view` is the pointwise view of its argument.
pub proof fn lemma_typed_fields_view(fs: Seq<(String, TypedValue)>)
    ensures
        typed_fields_view(fs).len() == fs.len(),
        forall|i: int| 0 <= i < fs.len() ==> #[trigger] typed_fields_view(fs)[i] == (
            fs[i].0@,
            fs[i].1@,
        ),
    decreases fs,
{
    if fs.len() > 0 {
        lemma_typed_fields_view(fs.drop_last());
        assert(typed_fields_view(fs) == typed_fields_view(fs.drop_last()).push((fs.last().0@, fs.last().1@)));
        assert forall|i: int| 0 <= i < fs.len() implies #[trigger] typed_fields_view(fs)[i] == (
            fs[i].0@,
            fs[i].1@,
        ) by {
            if i < fs.len() - 1 {
                assert(fs.drop_last()[i] == fs[i]);
                assert(typed_fields_view(fs)[i] == typed_fields_view(fs.drop_last())[i]);
            }
        }
    }
}

/// `shape_fields_view` is the pointwise view of its argument.
pub proof fn lemma_shape_fields_view(fs: Seq<(String, Shape)>)
    ensures
        shape_fields_view(fs).len() == fs.len(),
        forall|i: int| 0 <= i < fs.len() ==> #[trigger] shape_fields_view(fs)[i] == (
            fs[i].0@,
            fs[i].1@,
        ),
    decreases fs,
{
    if fs.len() > 0 {
        lemma_shape_fields_view(fs.drop_last());
        assert(shape_fields_view(fs) == shape_fields_view(fs.drop_last()).push((fs.last().0@, fs.last().1@)));
        assert forall|i: int| 0 <= i < fs.len() implies #[trigger] shape_fields_view(fs)[i] == (
            fs[i].0@,
            fs[i].1@,
        ) by {
            if i < fs.len() - 1 {
                assert(fs.drop_last()[i] == fs[i]);
                assert(shape_fields_view(fs)[i] == shape_fields_view(fs.drop_last())[i]);
            }
        }
    }
}

} // verus!

verus! {

/// The view of a character value is the matching model constructor.
pub proof fn lemma_char_value_view(c: char)
    ensures
        TypedValue::Char(c)@ == TypedModel::Char(c),
{
}

} // verus!
