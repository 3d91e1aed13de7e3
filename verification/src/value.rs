//! Dynamic values stored by nodes, their mathematical model, and equality.
use vstd::prelude::*;
use vstd::string::StringExecFns;
use crate::text::str_eq;

verus! {

/// A floating-point number, kept as its IEEE-754 binary64 bit pattern
/// together with its decimal rendering (the text that serialization emits
/// for it when it is finite).
#[derive(Debug, Clone)]
pub struct Number {
    pub bits: u64,
    pub text: String,
}

/// A JSON-style object: string keys in the order in which they were first
/// inserted; `insert` binds each key at most once.
#[derive(Debug)]
pub struct ObjectMap {
    entries: Vec<(String, Value)>,
}

/// Dynamic data stored by a node.
#[derive(Debug)]
pub enum Value {
    Null,
    Bool(bool),
    Int(i64),
    Float(Number),
    Text(String),
    List(Vec<Value>),
    Object(ObjectMap),
}

/// The mathematical value of a `Value`: the same tree, with strings as
/// character sequences and objects as sequences of key/value entries.
pub enum ValueModel {
    Null,
    Bool(bool),
    Int(i64),
    Float(u64, Seq<char>),
    Text(Seq<char>),
    List(Seq<ValueModel>),
    Object(Seq<(Seq<char>, ValueModel)>),
}

/// Entries of an object, as key/value pairs of the model.
pub type Entries = Seq<(Seq<char>, ValueModel)>;

impl ObjectMap {
    /// The entries of the map, in order.
    pub closed spec fn spec_entries(&self) -> Seq<(String, Value)> {
        self.entries@
    }

    /// No two entries have the same key.
    #[verifier::type_invariant]
    closed spec fn keys_distinct(self) -> bool {
        keys_unique(entries_model(self.entries@))
    }
}

/// The items of a list and the values of an object are smaller than it.
#[via_fn]
proof fn value_model_decreases(v: Value) {
    match v {
        Value::List(xs) => {
            assert forall|i: int| 0 <= i < xs@.len() implies decreases_to!(v => xs@[i]) by {
                assert(decreases_to!(v => xs));
                assert(decreases_to!(xs => xs@));
            }
        },
        Value::Object(m) => {
            assert forall|i: int| 0 <= i < m.spec_entries().len() implies decreases_to!(v => m.spec_entries()[i].1) by {
                assert(decreases_to!(v => m));
                assert(decreases_to!(m => m.entries));
                assert(decreases_to!(m.entries => m.entries@));
                assert(decreases_to!(m.entries@ => m.entries@[i]));
            }
        },
        _ => {},
    }
}

/// A value of an object is smaller than the object.
pub proof fn lemma_entry_decreases(v: Value, m: ObjectMap, i: int)
    requires
        v == Value::Object(m),
        0 <= i < m.spec_entries().len(),
    ensures
        decreases_to!(v => m.spec_entries()[i].1),
{
    if let Value::Object(mm) = v {
        assert(decreases_to!(v => mm));
    }
    assert(decreases_to!(m => m.entries));
    assert(decreases_to!(m.entries => m.entries@));
    assert(decreases_to!(m.entries@ => m.entries@[i]));
}

/// The mathematical value of an exec value.
pub open spec fn value_model(v: Value) -> ValueModel
    decreases v
    via value_model_decreases
{
    match v {
        Value::Null => ValueModel::Null,
        Value::Bool(b) => ValueModel::Bool(b),
        Value::Int(i) => ValueModel::Int(i),
        Value::Float(n) => ValueModel::Float(n.bits, n.text@),
        Value::Text(s) => ValueModel::Text(s@),
        Value::List(xs) => ValueModel::List(
            Seq::new(xs@.len(), |i: int| if 0 <= i < xs@.len() { value_model(xs@[i]) } else { ValueModel::Null }),
        ),
        Value::Object(m) => ValueModel::Object(
            Seq::new(
                m.spec_entries().len(),
                |i: int|
                    if 0 <= i < m.spec_entries().len() {
                        (m.spec_entries()[i].0@, value_model(m.spec_entries()[i].1))
                    } else {
                        (Seq::empty(), ValueModel::Null)
                    },
            ),
        ),
    }
}

/// The model of an object's entries.
pub open spec fn entries_model(es: Seq<(String, Value)>) -> Entries {
    Seq::new(es.len(), |i: int| (es[i].0@, value_model(es[i].1)))
}

impl View for Value {
    type V = ValueModel;

    open spec fn view(&self) -> ValueModel {
        value_model(*self)
    }
}

impl View for ObjectMap {
    type V = Entries;

    open spec fn view(&self) -> Entries {
        entries_model(self.spec_entries())
    }
}

/// The object with these exec entries has this model.
pub proof fn lemma_object_model(m: ObjectMap)
    ensures
        value_model(Value::Object(m)) == ValueModel::Object(m@),
{
    assert(value_model(Value::Object(m)) == ValueModel::Object(m@)) by {
        if let ValueModel::Object(es) = value_model(Value::Object(m)) {
            assert(es =~= m@);
        }
    }
}

/// The list with these exec items has this model.
pub proof fn lemma_list_model(xs: Vec<Value>)
    ensures
        value_model(Value::List(xs)) == ValueModel::List(Seq::new(xs@.len(), |i: int| value_model(xs@[i]))),
{
    if let ValueModel::List(ys) = value_model(Value::List(xs)) {
        assert(ys =~= Seq::new(xs@.len(), |i: int| value_model(xs@[i])));
    }
}

// ---------------------------------------------------------------------------
// Floating-point bit patterns
// ---------------------------------------------------------------------------

/// The biased exponent field of a binary64 bit pattern.
pub open spec fn float_exponent(bits: u64) -> int {
    (bits as int / 0x10000000000000) % 0x800
}

/// The fraction field of a binary64 bit pattern.
pub open spec fn float_fraction(bits: u64) -> int {
    bits as int % 0x10000000000000
}

/// The bit pattern encodes a NaN.
pub open spec fn is_nan(bits: u64) -> bool {
    float_exponent(bits) == 0x7FF && float_fraction(bits) != 0
}

/// The bit pattern encodes a NaN or an infinity.
pub open spec fn is_non_finite(bits: u64) -> bool {
    float_exponent(bits) == 0x7FF
}

/// The bit pattern encodes +0.0 or -0.0.
pub open spec fn is_zero(bits: u64) -> bool {
    float_exponent(bits) == 0 && float_fraction(bits) == 0
}

/// IEEE-754 equality of two binary64 bit patterns: NaN equals nothing, the
/// two zeros are equal, and otherwise equal numbers have equal patterns.
pub open spec fn ieee_eq(a: u64, b: u64) -> bool {
    !is_nan(a) && !is_nan(b) && (a == b || (is_zero(a) && is_zero(b)))
}

/// Tests whether a bit pattern is NaN or infinite.
pub fn bits_non_finite(bits: u64) -> (r: bool)
    ensures
        r == is_non_finite(bits),
{
    (bits / 0x10000000000000) % 0x800 == 0x7FF
}

/// IEEE-754 equality of two binary64 bit patterns.
pub fn bits_ieee_eq(a: u64, b: u64) -> (r: bool)
    ensures
        r == ieee_eq(a, b),
{
    let ea = (a / 0x10000000000000) % 0x800;
    let fa = a % 0x10000000000000;
    let eb = (b / 0x10000000000000) % 0x800;
    let fb = b % 0x10000000000000;
    let nan_a = ea == 0x7FF && fa != 0;
    let nan_b = eb == 0x7FF && fb != 0;
    let zero_a = ea == 0 && fa == 0;
    let zero_b = eb == 0 && fb == 0;
    !nan_a && !nan_b && (a == b || (zero_a && zero_b))
}

// ---------------------------------------------------------------------------
// Object lookup and equality
// ---------------------------------------------------------------------------

/// The value under key `k` in entries `es`: the first entry with that key.
pub open spec fn obj_lookup(es: Entries, k: Seq<char>) -> Option<ValueModel>
    decreases es.len(),
{
    if es.len() == 0 {
        None
    } else if es[0].0 == k {
        Some(es[0].1)
    } else {
        obj_lookup(es.drop_first(), k)
    }
}

/// The position of the first entry with key `k`, if any.
pub open spec fn obj_pos(es: Entries, k: Seq<char>) -> Option<int>
    decreases es.len(),
{
    if es.len() == 0 {
        None
    } else if es[0].0 == k {
        Some(0)
    } else {
        match obj_pos(es.drop_first(), k) {
            Some(p) => Some(p + 1),
            None => None,
        }
    }
}

/// No two entries share a key.
pub open spec fn keys_unique(es: Entries) -> bool {
    forall|i: int, j: int| 0 <= i < es.len() && 0 <= j < es.len() && i != j ==> es[i].0 != es[j].0
}

/// The first entry with key `k` is at `obj_pos`, and `obj_lookup` reads it.
pub proof fn lemma_obj_pos(es: Entries, k: Seq<char>)
    ensures
        match obj_pos(es, k) {
            Some(p) => 0 <= p < es.len() && es[p].0 == k && obj_lookup(es, k) == Some(es[p].1)
                && forall|j: int| 0 <= j < p ==> es[j].0 != k,
            None => obj_lookup(es, k) is None && forall|j: int| 0 <= j < es.len() ==> es[j].0 != k,
        },
    decreases es.len(),
{
    if es.len() > 0 && es[0].0 != k {
        lemma_obj_pos(es.drop_first(), k);
        match obj_pos(es.drop_first(), k) {
            Some(p) => {
                assert forall|j: int| 0 <= j < p + 1 implies es[j].0 != k by {
                    if j > 0 {
                        assert(es[j] == es.drop_first()[j - 1]);
                    }
                }
            },
            None => {
                assert forall|j: int| 0 <= j < es.len() implies es[j].0 != k by {
                    if j > 0 {
                        assert(es[j] == es.drop_first()[j - 1]);
                    }
                }
            },
        }
    }
}

/// Equality of values as the library defines it: numbers by IEEE-754
/// equality, lists item by item, and objects as maps (same number of keys,
/// and each key of one bound in the other to an equal value).
pub open spec fn model_eq(a: ValueModel, b: ValueModel) -> bool
    decreases a,
{
    match a {
        ValueModel::Null => b is Null,
        ValueModel::Bool(x) => b matches ValueModel::Bool(y) && x == y,
        ValueModel::Int(x) => b matches ValueModel::Int(y) && x == y,
        ValueModel::Float(x, _) => b matches ValueModel::Float(y, _) && ieee_eq(x, y),
        ValueModel::Text(x) => b matches ValueModel::Text(y) && x == y,
        ValueModel::List(xs) => b matches ValueModel::List(ys) && xs.len() == ys.len() && forall|i: int|
            0 <= i < xs.len() ==> model_eq(xs[i], ys[i]),
        ValueModel::Object(es) => b matches ValueModel::Object(fs) && es.len() == fs.len() && forall|i: int|
            0 <= i < es.len() ==> (match obj_lookup(fs, #[trigger] es[i].0) {
                Some(w) => model_eq(es[i].1, w),
                None => false,
            }),
    }
}


// ---------------------------------------------------------------------------
// Object maps
// ---------------------------------------------------------------------------

impl ObjectMap {
    /// Creates an empty object.
    pub fn new() -> (r: ObjectMap)
        ensures
            r@ == Seq::<(Seq<char>, ValueModel)>::empty(),
    {
        let r = ObjectMap { entries: Vec::new() };
        assert(r@ =~= Seq::<(Seq<char>, ValueModel)>::empty());
        r
    }

    /// The number of entries.
    pub fn len(&self) -> (r: usize)
        ensures
            r == self@.len(),
    {
        self.entries.len()
    }

    /// Returns `true` if the object has no entries.
    pub fn is_empty(&self) -> (r: bool)
        ensures
            r == (self@.len() == 0),
    {
        self.entries.len() == 0
    }

    /// The entries, in order; no two have the same key.
    pub fn pairs(&self) -> (r: &Vec<(String, Value)>)
        ensures
            r@ == self.spec_entries(),
            entries_model(r@) == self@,
            keys_unique(self@),
    {
        proof {
            use_type_invariant(self);
        }
        &self.entries
    }

    /// The position of the entry with this key, if any.
    pub fn position(&self, key: &str) -> (r: Option<usize>)
        ensures
            match r {
                Some(p) => obj_pos(self@, key@) == Some(p as int),
                None => obj_pos(self@, key@) is None,
            },
    {
        proof {
            lemma_obj_pos(self@, key@);
        }
        let n = self.entries.len();
        let mut i: usize = 0;
        while i < n
            invariant
                n == self.entries@.len(),
                n == self@.len(),
                0 <= i <= n,
                forall|j: int| 0 <= j < i ==> self@[j].0 != key@,
            decreases n - i,
        {
            if str_eq(self.entries[i].0.as_str(), key) {
                assert(self@[i as int].0 == self.entries@[i as int].0@);
                proof {
                    lemma_obj_pos(self@, key@);
                    match obj_pos(self@, key@) {
                        Some(p) => {
                            if p < i {
                                assert(self@[p].0 != key@);
                            } else if p > i {
                                assert(self@[i as int].0 != key@);
                            }
                        },
                        None => {
                            assert(self@[i as int].0 != key@);
                        },
                    }
                }
                return Some(i);
            }
            assert(self@[i as int].0 == self.entries@[i as int].0@);
            i = i + 1;
        }
        proof {
            if let Some(p) = obj_pos(self@, key@) {
                assert(self@[p].0 == key@);
                assert(self@[p].0 != key@);
            }
        }
        None
    }

    /// The value under this key, if any.
    pub fn get(&self, key: &str) -> (r: Option<&Value>)
        ensures
            match r {
                Some(v) => obj_lookup(self@, key@) == Some(v@),
                None => obj_lookup(self@, key@) is None,
            },
    {
        proof {
            lemma_obj_pos(self@, key@);
        }
        match self.position(key) {
            Some(p) => Some(&self.entries[p].1),
            None => None,
        }
    }

    /// Returns `true` if some entry has this key.
    pub fn contains_key(&self, key: &str) -> (r: bool)
        ensures
            r == obj_lookup(self@, key@) is Some,
    {
        proof {
            lemma_obj_pos(self@, key@);
        }
        self.position(key).is_some()
    }

    /// Binds `key` to `value`. An existing entry with this key keeps its
    /// place and gets the new value, which is returned in place of the old
    /// one; otherwise the entry is appended.
    pub fn insert(&mut self, key: String, value: Value) -> (r: Option<Value>)
        ensures
            final(self)@ == obj_insert(old(self)@, key@, value@),
            match r {
                Some(v) => obj_lookup(old(self)@, key@) == Some(v@),
                None => obj_lookup(old(self)@, key@) is None,
            },
            keys_unique(final(self)@),
    {
        proof {
            use_type_invariant(&*self);
            lemma_obj_pos(old(self)@, key@);
        }
        let pos = self.position(key.as_str());
        let ghost km = key@;
        let ghost vm = value@;
        let mut es: Vec<(String, Value)> = Vec::new();
        std::mem::swap(&mut es, &mut self.entries);
        assert(entries_model(es@) == old(self)@);
        match pos {
            Some(p) => {
                let old_entry = es.remove(p);
                es.insert(p, (key, value));
                assert(entries_model(es@) =~= obj_insert(old(self)@, km, vm));
                self.entries = es;
                Some(old_entry.1)
            },
            None => {
                es.push((key, value));
                assert(entries_model(es@) =~= obj_insert(old(self)@, km, vm));
                self.entries = es;
                None
            },
        }
    }

    /// Removes the entry with this key, keeping the order of the others,
    /// and returns its value.
    pub fn remove(&mut self, key: &str) -> (r: Option<Value>)
        ensures
            final(self)@ == obj_remove(old(self)@, key@),
            match r {
                Some(v) => obj_lookup(old(self)@, key@) == Some(v@),
                None => obj_lookup(old(self)@, key@) is None,
            },
            keys_unique(final(self)@),
    {
        proof {
            use_type_invariant(&*self);
            lemma_obj_pos(old(self)@, key@);
        }
        match self.position(key) {
            Some(p) => {
                let mut es: Vec<(String, Value)> = Vec::new();
                std::mem::swap(&mut es, &mut self.entries);
                assert(entries_model(es@) == old(self)@);
                let e = es.remove(p);
                assert(entries_model(es@) =~= obj_remove(old(self)@, key@));
                self.entries = es;
                Some(e.1)
            },
            None => {
                proof {
                    assert(self@ =~= obj_remove(old(self)@, key@));
                }
                None
            },
        }
    }
}

/// The entries after binding `k` to `v`: the first entry with key `k` gets
/// the new value, or, without one, the entry is appended.
pub open spec fn obj_insert(es: Entries, k: Seq<char>, v: ValueModel) -> Entries {
    match obj_pos(es, k) {
        Some(p) => es.update(p, (k, v)),
        None => es.push((k, v)),
    }
}

/// The entries after removing the first entry with key `k`.
pub open spec fn obj_remove(es: Entries, k: Seq<char>) -> Entries {
    match obj_pos(es, k) {
        Some(p) => es.remove(p),
        None => es,
    }
}

// ---------------------------------------------------------------------------
// Executable equality and copying
// ---------------------------------------------------------------------------

/// Decides `model_eq` on two values.
#[verifier::loop_isolation(false)]
pub fn values_equal(a: &Value, b: &Value) -> (r: bool)
    ensures
        r == model_eq(a@, b@),
    decreases a,
{
    match a {
        Value::Null => match b {
            Value::Null => true,
            _ => false,
        },
        Value::Bool(x) => match b {
            Value::Bool(y) => *x == *y,
            _ => false,
        },
        Value::Int(x) => match b {
            Value::Int(y) => *x == *y,
            _ => false,
        },
        Value::Float(x) => match b {
            Value::Float(y) => bits_ieee_eq(x.bits, y.bits),
            _ => false,
        },
        Value::Text(x) => match b {
            Value::Text(y) => *x == *y,
            _ => false,
        },
        Value::List(xs) => match b {
            Value::List(ys) => {
                proof {
                    lemma_list_model(*xs);
                    lemma_list_model(*ys);
                }
                let ghost mx = Seq::new(xs@.len(), |j: int| value_model(xs@[j]));
                let ghost my = Seq::new(ys@.len(), |j: int| value_model(ys@[j]));
                assert(a@ == ValueModel::List(mx));
                assert(b@ == ValueModel::List(my));
                if xs.len() != ys.len() {
                    return false;
                }
                let n = xs.len();
                let mut i: usize = 0;
                while i < n
                    invariant
                        n == xs@.len(),
                        n == ys@.len(),
                        mx == Seq::new(xs@.len(), |j: int| value_model(xs@[j])),
                        my == Seq::new(ys@.len(), |j: int| value_model(ys@[j])),
                        0 <= i <= n,
                        forall|j: int| 0 <= j < i ==> model_eq(#[trigger] mx[j], my[j]),
                    decreases n - i,
                {
                    assert(decreases_to!(*a => xs@[i as int])) by {
                        assert(decreases_to!(*a => *xs));
                        assert(decreases_to!(*xs => xs@));
                    }
                    if !values_equal(&xs[i], &ys[i]) {
                        assert(!model_eq(mx[i as int], my[i as int]));
                        return false;
                    }
                    i = i + 1;
                }
                true
            },
            _ => false,
        },
        Value::Object(m1) => match b {
            Value::Object(m2) => {
                proof {
                    lemma_object_model(*m1);
                    lemma_object_model(*m2);
                }
                if m1.len() != m2.len() {
                    return false;
                }
                let n = m1.len();
                let es = m1.pairs();
                let mut i: usize = 0;
                while i < n
                    invariant
                        n == m1@.len(),
                        n == m2@.len(),
                        es@ == m1.spec_entries(),
                        entries_model(es@) == m1@,
                        0 <= i <= n,
                        forall|j: int| 0 <= j < i ==> (match obj_lookup(m2@, #[trigger] m1@[j].0) {
                            Some(w) => model_eq(m1@[j].1, w),
                            None => false,
                        }),
                    decreases n - i,
                {
                    assert(decreases_to!(*a => es@[i as int].1)) by {
                        assert(decreases_to!(*a => *m1));
                        assert(decreases_to!(*m1 => m1.entries));
                        assert(decreases_to!(m1.entries => m1.entries@));
                        assert(decreases_to!(m1.entries@ => m1.entries@[i as int]));
                    }
                    assert(m1@[i as int] == (es@[i as int].0@, value_model(es@[i as int].1)));
                    match m2.get(es[i].0.as_str()) {
                        Some(w) => {
                            if !values_equal(&es[i].1, w) {
                                assert(!(match obj_lookup(m2@, m1@[i as int].0) {
                                    Some(w) => model_eq(m1@[i as int].1, w),
                                    None => false,
                                }));
                                return false;
                            }
                        },
                        None => {
                            assert(!(match obj_lookup(m2@, m1@[i as int].0) {
                                Some(w) => model_eq(m1@[i as int].1, w),
                                None => false,
                            }));
                            return false;
                        },
                    }
                    i = i + 1;
                }
                true
            },
            _ => false,
        },
    }
}

/// A copy of the value, with the same model.
#[verifier::loop_isolation(false)]
pub fn copy_value(v: &Value) -> (r: Value)
    ensures
        r@ == v@,
    decreases v,
{
    match v {
        Value::Null => Value::Null,
        Value::Bool(b) => Value::Bool(*b),
        Value::Int(i) => Value::Int(*i),
        Value::Float(n) => Value::Float(Number { bits: n.bits, text: n.text.clone() }),
        Value::Text(s) => Value::Text(s.clone()),
        Value::List(xs) => {
            proof {
                lemma_list_model(*xs);
            }
            let n = xs.len();
            let mut ys: Vec<Value> = Vec::new();
            let mut i: usize = 0;
            while i < n
                invariant
                    n == xs@.len(),
                    0 <= i <= n,
                    ys@.len() == i,
                    forall|j: int| 0 <= j < i ==> value_model(#[trigger] ys@[j]) == value_model(xs@[j]),
                decreases n - i,
            {
                assert(decreases_to!(v => xs@[i as int])) by {
                    assert(decreases_to!(v => *xs));
                    assert(decreases_to!(*xs => xs@));
                }
                ys.push(copy_value(&xs[i]));
                i = i + 1;
            }
            proof {
                lemma_list_model(ys);
                assert(Seq::new(ys@.len(), |j: int| value_model(ys@[j])) =~= Seq::new(
                    xs@.len(),
                    |j: int| value_model(xs@[j]),
                ));
            }
            Value::List(ys)
        },
        Value::Object(m) => {
            proof {
                lemma_object_model(*m);
                use_type_invariant(m);
            }
            let n = m.len();
            let es = m.pairs();
            let mut out: Vec<(String, Value)> = Vec::new();
            let mut i: usize = 0;
            while i < n
                invariant
                    n == m@.len(),
                    es@ == m.spec_entries(),
                    entries_model(es@) == m@,
                    0 <= i <= n,
                    out@.len() == i,
                    forall|j: int| 0 <= j < i ==> (#[trigger] out@[j]).0@ == m@[j].0 && value_model(out@[j].1) == m@[j].1,
                decreases n - i,
            {
                assert(decreases_to!(v => es@[i as int].1)) by {
                    assert(decreases_to!(v => *m));
                    assert(decreases_to!(*m => m.entries));
                    assert(decreases_to!(m.entries => m.entries@));
                    assert(decreases_to!(m.entries@ => m.entries@[i as int]));
                }
                assert(m@[i as int] == (es@[i as int].0@, value_model(es@[i as int].1)));
                let k = es[i].0.clone();
                let w = copy_value(&es[i].1);
                out.push((k, w));
                i = i + 1;
            }
            assert(entries_model(out@) =~= m@);
            let r = ObjectMap { entries: out };
            proof {
                lemma_object_model(r);
            }
            Value::Object(r)
        },
    }
}

impl Clone for Value {
    fn clone(&self) -> (r: Value)
        ensures
            r@ == self@,
    {
        copy_value(self)
    }
}

impl PartialEq for Value {
    fn eq(&self, other: &Value) -> (r: bool) {
        values_equal(self, other)
    }
}

impl vstd::std_specs::cmp::PartialEqSpecImpl for Value {
    open spec fn obeys_eq_spec() -> bool {
        true
    }

    open spec fn eq_spec(&self, other: &Value) -> bool {
        model_eq(self@, other@)
    }
}

} // verus!
