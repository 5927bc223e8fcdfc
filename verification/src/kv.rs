//! The data model: a key paired with either a literal string or a nested
//! ordered section of further key/value pairs.

use vstd::prelude::*;

verus! {

broadcast use vstd::std_specs::vec::group_vec_axioms, vstd::seq::group_seq_axioms;

/// Mathematical model of a tree value: a scalar's text, or the ordered
/// children of a section.
pub enum ValueModel {
    Scalar(Seq<char>),
    Section(Seq<KeyValueModel>),
}

/// Mathematical model of one key/value pair.
pub struct KeyValueModel {
    pub key: Seq<char>,
    pub value: ValueModel,
}

/// Mathematical model of one parsed file: its import paths in source order,
/// and its own key/value pairs in source order.
pub struct KeyValueFileModel {
    pub imports: Seq<Seq<char>>,
    pub kvs: Seq<KeyValueModel>,
}

/// A tree node's value: literal text, or an ordered section of children.
/// Keys need not be unique within one section; child order is construction
/// order and is preserved.
#[derive(Debug)]
pub enum Value {
    Value(String),
    Section(Vec<KeyValue>),
}

/// One key/value pair of the tree.
#[derive(Debug)]
pub struct KeyValue {
    pub key: String,
    pub value: Value,
}

/// One parsed file: the `#base` import paths it names, and its own pairs.
#[derive(Debug)]
pub struct KeyValueFile {
    pub imports: Vec<String>,
    pub kvs: Vec<KeyValue>,
}

/// The models of a sequence of pairs, in order.
pub open spec fn kvs_view(kvs: Seq<KeyValue>) -> Seq<KeyValueModel>
    decreases kvs,
{
    if kvs.len() == 0 {
        Seq::empty()
    } else {
        kvs_view(kvs.drop_last()).push(kvs.last()@)
    }
}

impl View for Value {
    type V = ValueModel;

    open spec fn view(&self) -> ValueModel
        decreases self,
    {
        match self {
            Value::Value(s) => ValueModel::Scalar(s@),
            Value::Section(kvs) => ValueModel::Section(kvs_view(kvs@)),
        }
    }
}

impl View for KeyValue {
    type V = KeyValueModel;

    open spec fn view(&self) -> KeyValueModel
        decreases self,
    {
        KeyValueModel { key: self.key@, value: self.value@ }
    }
}

impl View for KeyValueFile {
    type V = KeyValueFileModel;

    open spec fn view(&self) -> KeyValueFileModel {
        KeyValueFileModel {
            imports: Seq::new(self.imports@.len(), |i: int| self.imports@[i]@),
            kvs: kvs_view(self.kvs@),
        }
    }
}

/// `kvs_view` is the pointwise view of its argument.
pub proof fn lemma_kvs_view(kvs: Seq<KeyValue>)
    ensures
        kvs_view(kvs).len() == kvs.len(),
        forall|i: int| 0 <= i < kvs.len() ==> #[trigger] kvs_view(kvs)[i] == kvs[i]@,
    decreases kvs,
{
    if kvs.len() > 0 {
        lemma_kvs_view(kvs.drop_last());
        assert(kvs_view(kvs) == kvs_view(kvs.drop_last()).push(kvs.last()@));
        assert forall|i: int| 0 <= i < kvs.len() implies #[trigger] kvs_view(kvs)[i] == kvs[i]@ by {
            if i < kvs.len() - 1 {
                assert(kvs.drop_last()[i] == kvs[i]);
                assert(kvs_view(kvs)[i] == kvs_view(kvs.drop_last())[i]);
            }
        }
    }
}

impl KeyValueFile {
    /// An empty file: no imports, no pairs.
    pub fn new() -> (r: KeyValueFile)
        ensures
            r@.imports == Seq::<Seq<char>>::empty(),
            r@.kvs == Seq::<KeyValueModel>::empty(),
    {
        let r = KeyValueFile { imports: Vec::new(), kvs: Vec::new() };
        proof {
            assert(r@.imports =~= Seq::<Seq<char>>::empty());
            assert(r@.kvs =~= Seq::<KeyValueModel>::empty());
        }
        r
    }
}

impl PartialEq for Value {
    /// Structural equality: same node kind, same text, same children.
    fn eq(&self, other: &Value) -> (r: bool)
        ensures
            r == (self@ == other@),
        decreases self,
    {
        match self {
            Value::Value(a) => match other {
                Value::Value(b) => *a == *b,
                _ => false,
            },
            Value::Section(a) => match other {
                Value::Section(b) => {
                proof {
                    lemma_kvs_view(a@);
                    lemma_kvs_view(b@);
                }
                if a.len() != b.len() {
                    proof {
                        assert(kvs_view(a@).len() != kvs_view(b@).len());
                    }
                    false
                } else {
                    let mut i: usize = 0;
                    let mut same = true;
                    while i < a.len()
                        invariant
                            *self == Value::Section(*a),
                            a@.len() == b@.len(),
                            i <= a@.len(),
                            same == (forall|j: int| 0 <= j < i ==> a@[j]@ == b@[j]@),
                        decreases a@.len() - i,
                    {
                        proof {
                            assert(decreases_to!(*self => self->Section_0));
                            assert(self->Section_0 == *a);
                            assert(decreases_to!(a@ => a@[i as int]));
                        }
                        if !(a[i] == b[i]) {
                            same = false;
                        }
                        i = i + 1;
                    }
                    proof {
                        if same {
                            assert(kvs_view(a@) =~= kvs_view(b@));
                        } else {
                            let j = choose|j: int| 0 <= j < a@.len() && a@[j]@ != b@[j]@;
                            assert(kvs_view(a@)[j] != kvs_view(b@)[j]);
                        }
                    }
                    same
                }
                },
                _ => false,
            },
        }
    }
}

impl vstd::std_specs::cmp::PartialEqSpecImpl for Value {
    open spec fn obeys_eq_spec() -> bool {
        true
    }

    open spec fn eq_spec(&self, other: &Value) -> bool {
        self@ == other@
    }
}

impl PartialEq for KeyValue {
    /// Structural equality: same key and same value.
    fn eq(&self, other: &KeyValue) -> (r: bool)
        ensures
            r == (self@ == other@),
        decreases self,
    {
        self.key == other.key && self.value == other.value
    }
}

impl vstd::std_specs::cmp::PartialEqSpecImpl for KeyValue {
    open spec fn obeys_eq_spec() -> bool {
        true
    }

    open spec fn eq_spec(&self, other: &KeyValue) -> bool {
        self@ == other@
    }
}

impl PartialEq for KeyValueFile {
    /// Structural equality: same imports and same pairs, in the same order.
    fn eq(&self, other: &KeyValueFile) -> (r: bool)
        ensures
            r == (self@ == other@),
    {
        if self.imports.len() != other.imports.len() || self.kvs.len() != other.kvs.len() {
            proof {
                lemma_kvs_view(self.kvs@);
                lemma_kvs_view(other.kvs@);
                assert(self@.imports.len() == self.imports@.len());
                assert(other@.imports.len() == other.imports@.len());
            }
            return false;
        }
        let mut i: usize = 0;
        while i < self.imports.len()
            invariant
                self.imports@.len() == other.imports@.len(),
                i <= self.imports@.len(),
                forall|j: int| 0 <= j < i ==> self.imports@[j]@ == other.imports@[j]@,
            decreases self.imports@.len() - i,
        {
            if !(self.imports[i] == other.imports[i]) {
                proof {
                    assert(self@.imports[i as int] != other@.imports[i as int]);
                }
                return false;
            }
            i = i + 1;
        }
        let mut k: usize = 0;
        while k < self.kvs.len()
            invariant
                self.kvs@.len() == other.kvs@.len(),
                k <= self.kvs@.len(),
                forall|j: int| 0 <= j < k ==> self.kvs@[j]@ == other.kvs@[j]@,
            decreases self.kvs@.len() - k,
        {
            if !(self.kvs[k] == other.kvs[k]) {
                proof {
                    lemma_kvs_view(self.kvs@);
                    lemma_kvs_view(other.kvs@);
                    assert(self@.kvs[k as int] != other@.kvs[k as int]);
                }
                return false;
            }
            k = k + 1;
        }
        proof {
            lemma_kvs_view(self.kvs@);
            lemma_kvs_view(other.kvs@);
            assert(self@.imports =~= other@.imports);
            assert(self@.kvs =~= other@.kvs);
        }
        true
    }
}

impl vstd::std_specs::cmp::PartialEqSpecImpl for KeyValueFile {
    open spec fn obeys_eq_spec() -> bool {
        true
    }

    open spec fn eq_spec(&self, other: &KeyValueFile) -> bool {
        self@ == other@
    }
}

impl KeyValueFile {
    /// A file holding the given pairs and no imports.
    pub fn from(kvs: Vec<KeyValue>) -> (r: KeyValueFile)
        ensures
            r@.imports == Seq::<Seq<char>>::empty(),
            r@.kvs == kvs_view(kvs@),
    {
        let r = KeyValueFile { imports: Vec::new(), kvs };
        proof {
            assert(r@.imports =~= Seq::<Seq<char>>::empty());
        }
        r
    }
}

impl Clone for Value {
    /// A structurally equal copy.
    fn clone(&self) -> (r: Value)
        ensures
            r@ == self@,
        decreases self,
    {
        match self {
            Value::Value(s) => Value::Value(s.clone()),
            Value::Section(kvs) => {
                let mut copy: Vec<KeyValue> = Vec::new();
                let mut i: usize = 0;
                proof {
                    lemma_kvs_view(kvs@);
                }
                while i < kvs.len()
                    invariant
                        *self == Value::Section(*kvs),
                        i <= kvs@.len(),
                        kvs_view(copy@).len() == i,
                        copy@.len() == i,
                        forall|j: int| 0 <= j < i ==> #[trigger] copy@[j]@ == kvs@[j]@,
                    decreases kvs@.len() - i,
                {
                    proof {
                        assert(decreases_to!(*self => self->Section_0));
                        assert(self->Section_0 == *kvs);
                        assert(decreases_to!(kvs@ => kvs@[i as int]));
                    }
                    let kv = &kvs[i];
                    copy.push(KeyValue { key: kv.key.clone(), value: kv.value.clone() });
                    proof {
                        lemma_kvs_view(copy@);
                    }
                    i = i + 1;
                }
                proof {
                    lemma_kvs_view(copy@);
                    lemma_kvs_view(kvs@);
                    assert(kvs_view(copy@) =~= kvs_view(kvs@));
                }
                Value::Section(copy)
            },
        }
    }
}

impl Clone for KeyValue {
    /// A structurally equal copy.
    fn clone(&self) -> (r: KeyValue)
        ensures
            r@ == self@,
    {
        KeyValue { key: self.key.clone(), value: self.value.clone() }
    }
}

impl Default for KeyValue {
    /// An empty key paired with an empty scalar.
    fn default() -> (r: KeyValue)
        ensures
            r@.key == Seq::<char>::empty(),
            r@.value == ValueModel::Scalar(Seq::<char>::empty()),
    {
        KeyValue { key: String::new(), value: Value::Value(String::new()) }
    }
}

} // verus!
