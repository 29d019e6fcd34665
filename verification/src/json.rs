//! A model of the JSON values that the course query service sends, and the
//! rules by which counts and the current semester are read from them.

use vstd::prelude::*;

use crate::text::{decimal, is_digit, is_ws, law_parse_i32_shape, law_decimal_reads_back, lemma_decimal_untrimmed, lemma_trim_shape, decimal_string, parse_i32, parse_i32_str, same_text, trim, trim_str};

verus! {

/// A JSON number as `serde_json` holds it: a non-negative integer, a negative
/// integer, or a floating-point number (kept here as the text that
/// `serde_json` prints for it).
pub enum JsonNumber {
    PosInt(u64),
    NegInt(i64),
    Float(String),
}

/// A JSON value. The entries of an object keep their order; a JSON object
/// never holds one key twice.
pub enum Json {
    Null,
    Bool(bool),
    Number(JsonNumber),
    Str(String),
    Array(Vec<Json>),
    Object(Vec<(String, Json)>),
}

impl JsonNumber {
    /// The number as an `i64`, where it is an integer that fits
    /// (`serde_json::Number::as_i64`).
    pub open spec fn spec_as_i64(self) -> Option<i64> {
        match self {
            JsonNumber::PosInt(u) => if u <= i64::MAX {
                Some(u as i64)
            } else {
                None
            },
            JsonNumber::NegInt(i) => Some(i),
            JsonNumber::Float(_) => None,
        }
    }

    pub fn as_i64(&self) -> (r: Option<i64>)
        ensures
            r == self.spec_as_i64(),
    {
        match self {
            JsonNumber::PosInt(u) => if *u <= 9223372036854775807u64 {
                Some(*u as i64)
            } else {
                None
            },
            JsonNumber::NegInt(i) => Some(*i),
            JsonNumber::Float(_) => None,
        }
    }

    pub fn copy(&self) -> (r: JsonNumber)
        ensures
            r == *self,
    {
        match self {
            JsonNumber::PosInt(u) => JsonNumber::PosInt(*u),
            JsonNumber::NegInt(i) => JsonNumber::NegInt(*i),
            JsonNumber::Float(t) => JsonNumber::Float(t.clone()),
        }
    }
}


/// Why a JSON value is not a count of students.
pub enum CountError {
    /// A number that is not an integer in the range of `i32`.
    InvalidNumber(JsonNumber),
    /// A string that, once trimmed, is not a decimal `i32`; it holds the
    /// trimmed text.
    InvalidNumberString(String),
    /// Neither a number, a string nor `null`.
    Unexpected,
}

/// The count that a JSON value stands for, where it stands for one: an
/// integer number in the range of `i32`; a string that trims to nothing
/// (zero) or to a decimal `i32`; or `null` (zero).
pub open spec fn count_value(v: Json) -> Option<i32> {
    match v {
        Json::Null => Some(0),
        Json::Number(n) => match n.spec_as_i64() {
            Some(x) => if i32::MIN <= x <= i32::MAX {
                Some(x as i32)
            } else {
                None
            },
            None => None,
        },
        Json::Str(s) => if trim(s@).len() == 0 {
            Some(0)
        } else {
            parse_i32(trim(s@))
        },
        _ => None,
    }
}

/// Reads a count (a seat limit or a number of chosen students) from the
/// JSON value that the query service gives for it.
pub fn count_from_json(v: &Json) -> (r: Result<i32, CountError>)
    ensures
        count_value(*v) matches Some(x) ==> r == Ok::<i32, CountError>(x),
        count_value(*v) is None ==> match *v {
            Json::Number(n) => r matches Err(CountError::InvalidNumber(m)) && m == n,
            Json::Str(s) => r matches Err(CountError::InvalidNumberString(t)) && t@ == trim(s@),
            _ => r matches Err(CountError::Unexpected),
        },
{
    match v {
        Json::Null => Ok(0),
        Json::Number(n) => match n.as_i64() {
            Some(x) => if -2147483648 <= x && x <= 2147483647 {
                Ok(x as i32)
            } else {
                Err(CountError::InvalidNumber(n.copy()))
            },
            None => Err(CountError::InvalidNumber(n.copy())),
        },
        Json::Str(s) => {
            let t = trim_str(s.as_str());
            if t.unicode_len() == 0 {
                Ok(0)
            } else {
                match parse_i32_str(t) {
                    Some(x) => Ok(x),
                    None => Err(CountError::InvalidNumberString(t.to_string())),
                }
            }
        },
        _ => Err(CountError::Unexpected),
    }
}


/// The element at `i` of an array.
pub open spec fn json_at(v: Json, i: int) -> Option<Json> {
    match v {
        Json::Array(items) => if 0 <= i < items@.len() {
            Some(items@[i])
        } else {
            None
        },
        _ => None,
    }
}

/// The value of the first entry whose key is `key`.
pub open spec fn entry_value(entries: Seq<(String, Json)>, key: Seq<char>) -> Option<Json>
    decreases entries.len(),
{
    if entries.len() == 0 {
        None
    } else if entries[0].0@ == key {
        Some(entries[0].1)
    } else {
        entry_value(entries.drop_first(), key)
    }
}

/// The value under `key` of an object.
pub open spec fn json_field(v: Json, key: Seq<char>) -> Option<Json> {
    match v {
        Json::Object(entries) => entry_value(entries@, key),
        _ => None,
    }
}

/// The element at `index` of an array (`serde_json::Value::get` with an index).
pub fn get_index(v: &Json, index: usize) -> (r: Option<&Json>)
    ensures
        r == (match json_at(*v, index as int) {
            Some(x) => Some(&x),
            None => None::<&Json>,
        }),
{
    match v {
        Json::Array(items) => if index < items.len() {
            Some(&items[index])
        } else {
            None
        },
        _ => None,
    }
}

/// The value under `key` of an object (`serde_json::Value::get` with a key).
pub fn get_field<'a>(v: &'a Json, key: &str) -> (r: Option<&'a Json>)
    ensures
        r == (match json_field(*v, key@) {
            Some(x) => Some(&x),
            None => None::<&Json>,
        }),
{
    match v {
        Json::Object(entries) => {
            let mut i: usize = 0;
            assert(entries@.skip(0) =~= entries@);
            while i < entries.len()
                invariant
                    i <= entries@.len(),
                    json_field(*v, key@) == entry_value(entries@, key@),
                    entry_value(entries@, key@) == entry_value(entries@.skip(i as int), key@),
                decreases entries@.len() - i,
            {
                let ghost rest = entries@.skip(i as int);
                assert(rest.drop_first() =~= entries@.skip(i + 1));
                assert(rest[0] == entries@[i as int]);
                if same_text(entries[i].0.as_str(), key) {
                    return Some(&entries[i].1);
                }
                i = i + 1;
            }
            None
        },
        _ => None,
    }
}

/// The text of a value the way the semester is read: a string as it is, an
/// integer in the range of `i64` in decimal, anything else as nothing.
pub open spec fn text_of(v: Json) -> Seq<char> {
    match v {
        Json::Str(s) => s@,
        Json::Number(n) => match n.spec_as_i64() {
            Some(x) => decimal(x as int),
            None => Seq::empty(),
        },
        _ => Seq::empty(),
    }
}

/// The semester that the `semestersinfo` answer names: the `Semester` field
/// of its first row, read as `text_of` reads it; nothing where there is no
/// such field.
pub open spec fn semester_text(data: Json) -> Seq<char> {
    match json_at(data, 0) {
        Some(row) => match json_field(row, "Semester"@) {
            Some(v) => text_of(v),
            None => Seq::empty(),
        },
        None => Seq::empty(),
    }
}

/// Why no semester could be read from the `semestersinfo` answer.
pub enum SemesterError {
    /// The first row has no `Semester` field, or it is empty or of another
    /// kind than a string or an integer.
    Empty,
}

/// Reads the current semester from the answer of the `semestersinfo` query.
pub fn semester_from_info(data: &Json) -> (r: Result<String, SemesterError>)
    ensures
        match r {
            Ok(s) => s@ == semester_text(*data) && s@.len() > 0,
            Err(SemesterError::Empty) => semester_text(*data).len() == 0,
        },
{
    let body: String = match get_index(data, 0) {
        Some(row) => match get_field(row, "Semester") {
            Some(v) => match v {
                Json::Str(s) => s.clone(),
                Json::Number(n) => match n.as_i64() {
                    Some(x) => decimal_string(x),
                    None => String::new(),
                },
                _ => String::new(),
            },
            None => String::new(),
        },
        None => String::new(),
    };
    if body.as_str().unicode_len() == 0 {
        Err(SemesterError::Empty)
    } else {
        Ok(body)
    }
}

} // verus!

verus! {

/// A count reads the same whether the service sends it as a JSON integer or
/// as its decimal text, with or without whitespace around it.
pub proof fn law_count_number_or_text(n: i32, num: JsonNumber, text: String)
    requires
        num.spec_as_i64() == Some(n as i64),
        trim(text@) == decimal(n as int),
    ensures
        count_value(Json::Number(num)) == Some(n),
        count_value(Json::Str(text)) == Some(n),
{
    law_decimal_reads_back(n);
    lemma_decimal_untrimmed(n as int);
}

} // verus!

verus! {

/// An integer that the service sends is read as that integer: a
/// non-negative one up to `i64::MAX` and every negative one as itself, and
/// as a count exactly when it lies in the range of `i32`; a floating-point
/// number is never an integer.
pub proof fn law_integers_read_as_themselves(u: u64, i: i64, t: String)
    ensures
        u <= i64::MAX ==> JsonNumber::PosInt(u).spec_as_i64() == Some(u as i64),
        u > i64::MAX ==> JsonNumber::PosInt(u).spec_as_i64() is None,
        JsonNumber::NegInt(i).spec_as_i64() == Some(i),
        JsonNumber::Float(t).spec_as_i64() is None,
        u <= i32::MAX ==> count_value(Json::Number(JsonNumber::PosInt(u))) == Some(u as i32),
        u > i32::MAX ==> count_value(Json::Number(JsonNumber::PosInt(u))) is None,
        i32::MIN <= i <= i32::MAX ==> count_value(Json::Number(JsonNumber::NegInt(i))) == Some(
            i as i32,
        ),
        (i < i32::MIN || i > i32::MAX) ==> count_value(Json::Number(JsonNumber::NegInt(i))) is None,
        count_value(Json::Number(JsonNumber::Float(t))) is None,
{
}

/// `null` and a string of nothing but whitespace count as zero; `true`,
/// `false`, arrays and objects are no count.
pub proof fn law_blank_counts_are_zero(text: String, b: bool, items: Vec<Json>, entries: Vec<(String, Json)>)
    ensures
        count_value(Json::Null) == Some(0i32),
        (forall|k: int| 0 <= k < text@.len() ==> is_ws(#[trigger] text@[k])) ==> count_value(
            Json::Str(text),
        ) == Some(0i32),
        count_value(Json::Bool(b)) is None,
        count_value(Json::Array(items)) is None,
        count_value(Json::Object(entries)) is None,
{
    if forall|k: int| 0 <= k < text@.len() ==> is_ws(#[trigger] text@[k]) {
        lemma_trim_shape(text@);
        let (a, c) = choose|a: int, c: int|
            0 <= a <= c <= text@.len() && trim(text@) == text@.subrange(a, c);
        if trim(text@).len() > 0 {
            assert(trim(text@)[0] == text@[a]);
        }
    }
}

proof fn lemma_entry_value_at(es: Seq<(String, Json)>, key: Seq<char>, k: int)
    requires
        0 <= k < es.len(),
        es[k].0@ == key,
        forall|j: int| 0 <= j < k ==> (#[trigger] es[j]).0@ != key,
    ensures
        entry_value(es, key) == Some(es[k].1),
    decreases k,
{
    if k > 0 {
        let t = es.drop_first();
        assert(es[0].0@ != key);
        assert forall|j: int| 0 <= j < k - 1 implies (#[trigger] t[j]).0@ != key by {
            assert(t[j] == es[j + 1]);
        }
        lemma_entry_value_at(t, key, k - 1);
    }
}

proof fn lemma_entry_value_absent(es: Seq<(String, Json)>, key: Seq<char>)
    requires
        forall|j: int| 0 <= j < es.len() ==> (#[trigger] es[j]).0@ != key,
    ensures
        entry_value(es, key) is None,
    decreases es.len(),
{
    if es.len() > 0 {
        let t = es.drop_first();
        assert(es[0].0@ != key);
        assert forall|j: int| 0 <= j < t.len() implies (#[trigger] t[j]).0@ != key by {
            assert(t[j] == es[j + 1]);
        }
        lemma_entry_value_absent(t, key);
    }
}

/// The semester is the `Semester` field of the first row, whatever the
/// other rows hold: a string is taken as it is, an integer (up to `i64`) is
/// written in decimal, and a field of any other kind gives no semester.
pub proof fn law_semester_is_first_rows_field(
    data: Json,
    items: Vec<Json>,
    entries: Vec<(String, Json)>,
    k: int,
)
    requires
        data == Json::Array(items),
        items@.len() > 0,
        items@[0] == Json::Object(entries),
        0 <= k < entries@.len(),
        entries@[k].0@ == "Semester"@,
        forall|j: int| 0 <= j < k ==> (#[trigger] entries@[j]).0@ != "Semester"@,
    ensures
        entries@[k].1 matches Json::Str(s) ==> semester_text(data) == s@,
        entries@[k].1 matches Json::Number(JsonNumber::NegInt(i)) ==> semester_text(data)
            == decimal(i as int),
        entries@[k].1 matches Json::Number(JsonNumber::PosInt(u)) ==> semester_text(data) == (
        if u <= i64::MAX {
            decimal(u as int)
        } else {
            Seq::<char>::empty()
        }),
        (entries@[k].1 is Null || entries@[k].1 is Bool || entries@[k].1 is Array
            || entries@[k].1 is Object || entries@[k].1 matches Json::Number(JsonNumber::Float(_)))
            ==> semester_text(data).len() == 0,
{
    lemma_entry_value_at(entries@, "Semester"@, k);
}

/// Without a first row that is an object with a `Semester` field there is
/// no semester, whatever the other rows hold.
pub proof fn law_semester_absent(data: Json)
    requires
        match data {
            Json::Array(items) => items@.len() == 0 || match items@[0] {
                Json::Object(entries) => forall|j: int|
                    0 <= j < entries@.len() ==> (#[trigger] entries@[j]).0@ != "Semester"@,
                _ => true,
            },
            _ => true,
        },
    ensures
        semester_text(data).len() == 0,
{
    if let Json::Array(items) = data {
        if items@.len() > 0 {
            if let Json::Object(entries) = items@[0] {
                lemma_entry_value_absent(entries@, "Semester"@);
            }
        }
    }
}

} // verus!

verus! {

/// Looking up a key in an object gives the value of its first entry under
/// that key, and nothing where there is none; looking up a place in an
/// array gives the element there; other values hold neither.
pub proof fn law_lookups(entries: Vec<(String, Json)>, items: Vec<Json>, key: Seq<char>, k: int, v: Json)
    ensures
        (0 <= k < entries@.len() && entries@[k].0@ == key && forall|j: int|
            0 <= j < k ==> (#[trigger] entries@[j]).0@ != key) ==> json_field(
            Json::Object(entries),
            key,
        ) == Some(entries@[k].1),
        (forall|j: int| 0 <= j < entries@.len() ==> (#[trigger] entries@[j]).0@ != key)
            ==> json_field(Json::Object(entries), key) is None,
        0 <= k < items@.len() ==> json_at(Json::Array(items), k) == Some(items@[k]),
        (k < 0 || k >= items@.len()) ==> json_at(Json::Array(items), k) is None,
        !(v is Object) ==> json_field(v, key) is None,
        !(v is Array) ==> json_at(v, k) is None,
{
    if 0 <= k < entries@.len() && entries@[k].0@ == key && forall|j: int|
        0 <= j < k ==> (#[trigger] entries@[j]).0@ != key {
        lemma_entry_value_at(entries@, key, k);
    }
    if forall|j: int| 0 <= j < entries@.len() ==> (#[trigger] entries@[j]).0@ != key {
        lemma_entry_value_absent(entries@, key);
    }
}

} // verus!

verus! {

/// A count string is read after trimming, so whitespace around it changes
/// nothing; once trimmed it is no count if it holds a character that is
/// neither a digit nor a leading sign.
pub proof fn law_count_strings(a: String, b: String)
    ensures
        trim(a@) == trim(b@) ==> count_value(Json::Str(a)) == count_value(Json::Str(b)),
        (exists|i: int|
            0 <= i < trim(a@).len() && !is_digit(#[trigger] trim(a@)[i]) && !(i == 0 && (trim(
                a@,
            )[0] == '+' || trim(a@)[0] == '-'))) ==> count_value(Json::Str(a)) is None,
{
    law_parse_i32_shape(trim(a@), 0, 0);
}

} // verus!
