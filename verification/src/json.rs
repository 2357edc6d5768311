//! JSON values as the server's messages carry them, held as plain data, and
//! the ways the client reads them.
use vstd::prelude::*;

verus! {

/// A JSON value. Numbers keep the parts the JSON parser produces: a sign,
/// a mantissa and a decimal exponent, the value being
/// `mantissa * 10^exponent`, negated when the sign is not positive.
pub enum Json {
    Null,
    Str(String),
    Number(bool, u64, i16),
    Boolean(bool),
    /// The entries of an object, in order; the parser keeps one entry per key.
    Object(Vec<(String, Json)>),
    Array(Vec<Json>),
}

/// The value of the first entry named `key`, from index `i` on.
pub open spec fn entry_value(entries: Seq<(String, Json)>, key: Seq<char>, i: int) -> Option<Json>
    decreases entries.len() - i,
{
    if i < 0 || i >= entries.len() {
        None
    } else if entries[i].0@ == key {
        Some(entries[i].1)
    } else {
        entry_value(entries, key, i + 1)
    }
}

/// `j[key]`: the member named `key` of an object, `Null` when there is none
/// or `j` is not an object.
pub open spec fn field(j: Json, key: Seq<char>) -> Json {
    match j {
        Json::Object(entries) => match entry_value(entries@, key, 0) {
            Some(v) => v,
            None => Json::Null,
        },
        _ => Json::Null,
    }
}

/// `j[i]`: the element at `i` of an array, `Null` when there is none or `j`
/// is not an array.
pub open spec fn item(j: Json, i: int) -> Json {
    match j {
        Json::Array(v) => if 0 <= i < v@.len() {
            v@[i]
        } else {
            Json::Null
        },
        _ => Json::Null,
    }
}

/// The elements of an array; nothing for any other value.
pub open spec fn members(j: Json) -> Seq<Json> {
    match j {
        Json::Array(v) => v@,
        _ => Seq::empty(),
    }
}

/// The text of a string value.
pub open spec fn as_str(j: Json) -> Option<Seq<char>> {
    match j {
        Json::Str(s) => Some(s@),
        _ => None,
    }
}

/// The mantissa read as a two's complement `i64`.
pub open spec fn wrap_i64(m: u64) -> int {
    if m <= i64::MAX {
        m as int
    } else {
        m - 0x1_0000_0000_0000_0000
    }
}

/// The integer of a number with no exponent, the mantissa read as an `i64`
/// and negated for a negative sign (`i64::MIN` stays as it is).
pub open spec fn as_i64(j: Json) -> Option<int> {
    match j {
        Json::Number(positive, m, e) => if e != 0 {
            None
        } else if positive {
            Some(wrap_i64(m))
        } else if wrap_i64(m) == i64::MIN {
            Some(i64::MIN as int)
        } else {
            Some(-wrap_i64(m))
        },
        _ => None,
    }
}

/// `as_i64` when the result fits in an `i32`.
pub open spec fn as_i32(j: Json) -> Option<i32> {
    match as_i64(j) {
        Some(v) => if i32::MIN <= v <= i32::MAX {
            Some(v as i32)
        } else {
            None
        },
        None => None,
    }
}

/// The mantissa of a positive number with no exponent, when it fits in a
/// `u8`.
pub open spec fn as_u8(j: Json) -> Option<u8> {
    match j {
        Json::Number(positive, m, e) => if positive && e == 0 && m <= 255 {
            Some(m as u8)
        } else {
            None
        },
        _ => None,
    }
}

impl Json {
    /// The member named `key`, when `self` is an object that has one.
    pub fn get(&self, key: &String) -> (r: Option<&Json>)
        ensures
            r matches Some(v) ==> *v == field(*self, key@),
            r is None ==> field(*self, key@) == Json::Null,
    {
        match self {
            Json::Object(entries) => {
                let n = entries.len();
                for i in 0..n
                    invariant
                        n == entries@.len(),
                        entry_value(entries@, key@, i as int) == entry_value(entries@, key@, 0),
                        field(*self, key@) == match entry_value(entries@, key@, 0) {
                            Some(v) => v,
                            None => Json::Null,
                        },
                {
                    if entries[i].0 == *key {
                        return Some(&entries[i].1);
                    }
                }
                None
            },
            _ => None,
        }
    }

    /// The element at `i`, when `self` is an array that long.
    pub fn at(&self, i: usize) -> (r: Option<&Json>)
        ensures
            r matches Some(v) ==> *v == item(*self, i as int),
            r is None ==> item(*self, i as int) == Json::Null,
            r is Some <==> i < members(*self).len(),
    {
        match self {
            Json::Array(v) => if i < v.len() {
                Some(&v[i])
            } else {
                None
            },
            _ => None,
        }
    }
}

/// `as_i32` of a value.
pub fn json_as_i32(j: &Json) -> (r: Option<i32>)
    ensures
        r == as_i32(*j),
{
    match j {
        Json::Number(positive, m, e) => {
            if *e != 0 {
                return None;
            }
            let m = *m;
            assert((m as i64) as int == wrap_i64(m)) by (bit_vector);
            let v = m as i64;
            let w = if *positive {
                v
            } else if v == i64::MIN {
                v
            } else {
                -v
            };
            if w >= i32::MIN as i64 && w <= i32::MAX as i64 {
                Some(w as i32)
            } else {
                None
            }
        },
        _ => None,
    }
}

/// `as_u8` of a value.
pub fn json_as_u8(j: &Json) -> (r: Option<u8>)
    ensures
        r == as_u8(*j),
{
    match j {
        Json::Number(positive, m, e) => if *positive && *e == 0 && *m <= 255 {
            Some(*m as u8)
        } else {
            None
        },
        _ => None,
    }
}

/// The text of a string value.
pub fn json_as_str(j: &Json) -> (r: Option<&String>)
    ensures
        r matches Some(s) ==> as_str(*j) == Some(s@),
        r is None ==> as_str(*j) is None,
{
    match j {
        Json::Str(s) => Some(s),
        _ => None,
    }
}

} // verus!
