//! Conversions of plain Rust values into `Value`.
use vstd::prelude::*;
use vstd::string::StringExecFns;
use vstd::std_specs::convert::{FromSpecImpl, IntoSpec};
use crate::value::{Value, ValueModel, ObjectMap, lemma_list_model};

verus! {

impl From<()> for Value {
    fn from(v: ()) -> (r: Value) {
        Value::Null
    }
}

impl FromSpecImpl<()> for Value {
    open spec fn obeys_from_spec() -> bool {
        true
    }

    open spec fn from_spec(v: ()) -> Value {
        Value::Null
    }
}

impl From<bool> for Value {
    fn from(v: bool) -> (r: Value) {
        Value::Bool(v)
    }
}

impl FromSpecImpl<bool> for Value {
    open spec fn obeys_from_spec() -> bool {
        true
    }

    open spec fn from_spec(v: bool) -> Value {
        Value::Bool(v)
    }
}

impl From<i64> for Value {
    fn from(v: i64) -> (r: Value) {
        Value::Int(v)
    }
}

impl FromSpecImpl<i64> for Value {
    open spec fn obeys_from_spec() -> bool {
        true
    }

    open spec fn from_spec(v: i64) -> Value {
        Value::Int(v)
    }
}

impl From<u32> for Value {
    fn from(v: u32) -> (r: Value) {
        Value::Int(v as i64)
    }
}

impl FromSpecImpl<u32> for Value {
    open spec fn obeys_from_spec() -> bool {
        true
    }

    open spec fn from_spec(v: u32) -> Value {
        Value::Int(v as i64)
    }
}

impl From<i32> for Value {
    fn from(v: i32) -> (r: Value) {
        Value::Int(v as i64)
    }
}

impl FromSpecImpl<i32> for Value {
    open spec fn obeys_from_spec() -> bool {
        true
    }

    open spec fn from_spec(v: i32) -> Value {
        Value::Int(v as i64)
    }
}

impl From<isize> for Value {
    fn from(v: isize) -> (r: Value) {
        Value::Int(v as i64)
    }
}

impl FromSpecImpl<isize> for Value {
    open spec fn obeys_from_spec() -> bool {
        true
    }

    open spec fn from_spec(v: isize) -> Value {
        Value::Int(v as i64)
    }
}

impl From<String> for Value {
    fn from(v: String) -> (r: Value) {
        Value::Text(v)
    }
}

impl FromSpecImpl<String> for Value {
    open spec fn obeys_from_spec() -> bool {
        true
    }

    open spec fn from_spec(v: String) -> Value {
        Value::Text(v)
    }
}

impl From<ObjectMap> for Value {
    fn from(v: ObjectMap) -> (r: Value) {
        Value::Object(v)
    }
}

impl FromSpecImpl<ObjectMap> for Value {
    open spec fn obeys_from_spec() -> bool {
        true
    }

    open spec fn from_spec(v: ObjectMap) -> Value {
        Value::Object(v)
    }
}

/// The text of a string slice becomes a new `String`, so the result is
/// described by its model only.
impl From<&str> for Value {
    fn from(v: &str) -> (r: Value)
        ensures
            r@ == ValueModel::Text(v@),
    {
        Value::Text(String::from_str(v))
    }
}

impl FromSpecImpl<&str> for Value {
    open spec fn obeys_from_spec() -> bool {
        false
    }

    open spec fn from_spec(v: &str) -> Value {
        Value::Null
    }
}


/// A list of the items, each converted into a value.
impl<T: Into<Value>> From<Vec<T>> for Value {
    fn from(v: Vec<T>) -> (r: Value)
        ensures
            r matches Value::List(xs) && xs@.len() == v@.len() && forall|i: int|
                0 <= i < v@.len() ==> (<T as IntoSpec<Value>>::obeys_into_spec() ==> #[trigger] xs@[i]
                    == <T as IntoSpec<Value>>::into_spec(v@[i])),
    {
        let ghost all = v@;
        let mut rest = v;
        let mut items: Vec<Value> = Vec::new();
        let n = rest.len();
        let mut k: usize = 0;
        while k < n
            invariant
                n == all.len(),
                0 <= k <= n,
                rest@ == all.subrange(k as int, n as int),
                items@.len() == k,
                forall|j: int| 0 <= j < k ==> (<T as IntoSpec<Value>>::obeys_into_spec() ==> #[trigger] items@[j]
                    == <T as IntoSpec<Value>>::into_spec(all[j])),
            decreases n - k,
        {
            let x = rest.remove(0);
            assert(x == all[k as int]);
            let w: Value = x.into();
            items.push(w);
            assert(rest@ =~= all.subrange(k + 1, n as int));
            k = k + 1;
        }
        Value::List(items)
    }
}

/// What a conversion of each item gives depends on the item type's own
/// conversion, so no specification is claimed here beyond `from`'s own
/// `ensures`.
impl<T: Into<Value>> FromSpecImpl<Vec<T>> for Value {
    open spec fn obeys_from_spec() -> bool {
        false
    }

    open spec fn from_spec(v: Vec<T>) -> Value {
        Value::Null
    }
}

} // verus!
