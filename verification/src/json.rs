//! A plain model of decoded JSON values: exactly what the engine's response
//! parsing reads. The process boundary decodes the wire bytes and converts
//! them into this shape; numbers carry the unsigned value when they have
//! one, and the bit pattern of the number read as a double, so the engine
//! can hand a confidence signal through without floating-point arithmetic.

use vstd::prelude::*;
use crate::strutil::str_eq;

verus! {

/// A JSON number: its value as an unsigned integer when it is one, and the
/// bit pattern of the value read as a double.
#[derive(Debug, Clone, Copy, PartialEq, Eq, Structural)]
pub struct JsonNum {
    pub uint: Option<u64>,
    pub bits: u64,
}

/// A decoded JSON value.
#[derive(Debug)]
pub enum JsonVal {
    Null,
    Bool(bool),
    Num(JsonNum),
    Str(String),
    Arr(Vec<JsonVal>),
    Obj(Vec<(String, JsonVal)>),
}

/// The first value under `key` among an object's entries, from `i` on.
pub open spec fn obj_get_from(entries: Seq<(String, JsonVal)>, key: Seq<char>, i: int) -> Option<
    JsonVal,
>
    decreases entries.len() - i,
{
    if i < 0 || i >= entries.len() {
        None
    } else if entries[i].0@ == key {
        Some(entries[i].1)
    } else {
        obj_get_from(entries, key, i + 1)
    }
}

/// The value under `key`, when `v` is an object that has one.
pub open spec fn spec_get(v: JsonVal, key: Seq<char>) -> Option<JsonVal> {
    match v {
        JsonVal::Obj(entries) => obj_get_from(entries@, key, 0),
        _ => None,
    }
}

/// The element at `i`, when `v` is an array long enough.
pub open spec fn spec_index(v: JsonVal, i: int) -> Option<JsonVal> {
    match v {
        JsonVal::Arr(items) => if 0 <= i < items@.len() {
            Some(items@[i])
        } else {
            None
        },
        _ => None,
    }
}

/// The characters of `v`, when it is a string.
pub open spec fn spec_as_str(v: JsonVal) -> Option<Seq<char>> {
    match v {
        JsonVal::Str(s) => Some(s@),
        _ => None,
    }
}

/// The unsigned value of `v`, when it is a number that has one.
pub open spec fn spec_as_u64(v: JsonVal) -> Option<u64> {
    match v {
        JsonVal::Num(n) => n.uint,
        _ => None,
    }
}

impl JsonVal {
    /// The value under `key`, when this is an object that has one.
    pub fn get(&self, key: &str) -> (r: Option<&JsonVal>)
        ensures
            match r {
                Some(x) => spec_get(*self, key@) == Some(*x),
                None => spec_get(*self, key@) is None,
            },
    {
        match self {
            JsonVal::Obj(entries) => {
                proof {
                    assert(spec_get(*self, key@) == obj_get_from(entries@, key@, 0));
                }
                let n = entries.len();
                let mut i: usize = 0;
                while i < n
                    invariant
                        i <= n,
                        n == entries@.len(),
                        spec_get(*self, key@) == obj_get_from(entries@, key@, 0),
                        obj_get_from(entries@, key@, 0) == obj_get_from(entries@, key@, i as int),
                    decreases n - i,
                {
                    if str_eq(entries[i].0.as_str(), key) {
                        proof {
                            assert(obj_get_from(entries@, key@, i as int) == Some(
                                entries@[i as int].1,
                            ));
                        }
                        return Some(&entries[i].1);
                    }
                    i += 1;
                }
                None
            },
            _ => None,
        }
    }

    /// The element at `i`, when this is an array long enough.
    pub fn index(&self, i: usize) -> (r: Option<&JsonVal>)
        ensures
            match r {
                Some(x) => spec_index(*self, i as int) == Some(*x),
                None => spec_index(*self, i as int) is None,
            },
    {
        match self {
            JsonVal::Arr(items) => {
                if i < items.len() {
                    Some(&items[i])
                } else {
                    None
                }
            },
            _ => None,
        }
    }

    /// The string slice, when this is a string.
    pub fn as_str(&self) -> (r: Option<&str>)
        ensures
            match r {
                Some(s) => spec_as_str(*self) == Some(s@),
                None => spec_as_str(*self) is None,
            },
    {
        match self {
            JsonVal::Str(s) => Some(s.as_str()),
            _ => None,
        }
    }

    /// The unsigned value, when this is a number that has one.
    pub fn as_u64(&self) -> (r: Option<u64>)
        ensures
            r == spec_as_u64(*self),
    {
        match self {
            JsonVal::Num(n) => n.uint,
            _ => None,
        }
    }

    /// The double bit pattern, when this is a number.
    pub fn num_bits(&self) -> (r: Option<u64>)
        ensures
            ({
                match *self {
                    JsonVal::Num(n) => r == Some(n.bits),
                    _ => r is None,
                }
            }),
    {
        match self {
            JsonVal::Num(n) => Some(n.bits),
            _ => None,
        }
    }
}

} // verus!
