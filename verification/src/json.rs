//! JSON values.
//!
//! Reading and printing is `serde_json`'s; a value in hand is a [`Json`], whose
//! numbers are kept as `serde_json` prints them.
use vstd::prelude::*;
use crate::text::{
    all_digits, decimal, decimal_text, digits_value, lemma_decimal, parse_decimal, same_text,
};

verus! {

/// A JSON value. The fields of an object that was read stand in the order of
/// their keys, and printing puts them in that order.
pub enum Json {
    Null,
    Bool(bool),
    Num(String),
    Str(String),
    Arr(Vec<Json>),
    Obj(Vec<(String, Json)>),
}

/// What a JSON value holds.
pub enum Tree {
    Null,
    Bool(bool),
    Num(Seq<char>),
    Str(Seq<char>),
    Arr(Seq<Tree>),
    Obj(Seq<(Seq<char>, Tree)>),
}

impl Json {
    /// What the value holds.
    pub open spec fn tree(self) -> Tree
        decreases self,
    {
        match self {
            Json::Null => Tree::Null,
            Json::Bool(b) => Tree::Bool(b),
            Json::Num(s) => Tree::Num(s@),
            Json::Str(s) => Tree::Str(s@),
            Json::Arr(v) => Tree::Arr(
                Seq::new(
                    v@.len(),
                    |i: int|
                        if 0 <= i < v@.len() {
                            v@[i].tree()
                        } else {
                            Tree::Null
                        },
                ),
            ),
            Json::Obj(v) => Tree::Obj(
                Seq::new(
                    v@.len(),
                    |i: int|
                        if 0 <= i < v@.len() {
                            (v@[i].0@, v@[i].1.tree())
                        } else {
                            (Seq::empty(), Tree::Null)
                        },
                ),
            ),
        }
    }
}

impl Tree {
    /// The value of the first field with a key, if the value is an object that has one.
    pub open spec fn field(self, key: Seq<char>) -> Option<Tree> {
        match self {
            Tree::Obj(fields) => field_of(fields, key),
            _ => None,
        }
    }

    /// The value of a field, or null where there is none.
    pub open spec fn at(self, key: Seq<char>) -> Tree {
        match self.field(key) {
            Some(t) => t,
            None => Tree::Null,
        }
    }

    /// The number that the value is, if it is an integer that is not negative.
    pub open spec fn uint(self) -> Option<u64> {
        match self {
            Tree::Num(s) => if all_digits(s) && digits_value(s) <= u64::MAX {
                Some(digits_value(s) as u64)
            } else {
                None
            },
            _ => None,
        }
    }

    /// The text that the value is.
    pub open spec fn text(self) -> Option<Seq<char>> {
        match self {
            Tree::Str(s) => Some(s),
            _ => None,
        }
    }

    /// The truth value that the value is.
    pub open spec fn truth(self) -> Option<bool> {
        match self {
            Tree::Bool(b) => Some(b),
            _ => None,
        }
    }
}

/// The value of the first field with a key.
pub open spec fn field_of(fields: Seq<(Seq<char>, Tree)>, key: Seq<char>) -> Option<Tree>
    decreases fields.len(),
{
    if fields.len() == 0 {
        None
    } else if fields[0].0 == key {
        Some(fields[0].1)
    } else {
        field_of(fields.skip(1), key)
    }
}

/// A field is found by its key: the first with that key, wherever it stands, and none
/// where no field has it.
pub proof fn law_fields_are_found_by_their_key(
    a: Seq<(Seq<char>, Tree)>,
    key: Seq<char>,
    value: Tree,
    b: Seq<(Seq<char>, Tree)>,
)
    requires
        forall|i: int| 0 <= i < a.len() ==> (#[trigger] a[i]).0 != key,
    ensures
        Tree::Obj(a).field(key) is None,
        Tree::Obj(a + seq![(key, value)] + b).field(key) == Some(value),
    decreases a.len(),
{
    let all = a + seq![(key, value)] + b;
    if a.len() > 0 {
        let rest = a.skip(1);
        assert(a[0].0 != key);
        assert forall|i: int| 0 <= i < rest.len() implies (#[trigger] rest[i]).0 != key by {
            assert(rest[i] == a[i + 1]);
        }
        law_fields_are_found_by_their_key(rest, key, value, b);
        assert(all.skip(1) =~= rest + seq![(key, value)] + b);
    }
}

/// Every number that fits is read back from its digits, and what has any other
/// character in it is no such number.
pub proof fn law_numbers_are_read_back(n: u64, s: Seq<char>, i: int)
    ensures
        Tree::Num(decimal(n as nat)).uint() == Some(n),
        0 <= i < s.len() && !('0' <= s[i] <= '9') ==> Tree::Num(s).uint() is None,
        Tree::Str(s).uint() is None,
{
    lemma_decimal(n as nat);
}

impl Json {
    /// The value of the first field with a key, if the value is an object that has one.
    pub fn get(&self, key: &str) -> (r: Option<&Json>)
        ensures
            match r {
                Some(j) => self.tree().field(key@) == Some(j.tree()),
                None => self.tree().field(key@) is None,
            },
    {
        match self {
            Json::Obj(fields) => {
                let mut i: usize = 0;
                let ghost all = self.tree()->Obj_0;
                proof {
                    assert(all.skip(0) =~= all);
                }
                while i < fields.len()
                    invariant
                        i <= fields@.len(),
                        *self == Json::Obj(*fields),
                        self.tree() == Tree::Obj(all),
                        all.len() == fields@.len(),
                        forall|k: int|
                            0 <= k < fields@.len() ==> #[trigger] all[k] == (
                                fields@[k].0@,
                                fields@[k].1.tree(),
                            ),
                        field_of(all, key@) == field_of(all.skip(i as int), key@),
                    decreases fields@.len() - i,
                {
                    proof {
                        assert(all.skip(i as int).skip(1) =~= all.skip(i + 1));
                        assert(all[i as int] == (fields@[i as int].0@, fields@[i as int].1.tree()));
                    }
                    let f = &fields[i];
                    if same_text(f.0.as_str(), key) {
                        return Some(&f.1);
                    }
                    i += 1;
                }
                None
            },
            _ => None,
        }
    }
}

impl Json {
    /// The number that the value is, if it is an integer that is not negative.
    pub fn as_u64(&self) -> (r: Option<u64>)
        ensures
            r == self.tree().uint(),
    {
        match self {
            Json::Num(s) => parse_decimal(s.as_str()),
            _ => None,
        }
    }

    /// The text that the value is.
    pub fn as_str(&self) -> (r: Option<&str>)
        ensures
            match r {
                Some(s) => self.tree().text() == Some(s@),
                None => self.tree().text() is None,
            },
    {
        match self {
            Json::Str(s) => Some(s.as_str()),
            _ => None,
        }
    }

    /// The truth value that the value is.
    pub fn as_bool(&self) -> (r: Option<bool>)
        ensures
            r == self.tree().truth(),
    {
        match self {
            Json::Bool(b) => Some(*b),
            _ => None,
        }
    }

    /// Whether the value is null.
    pub fn is_null(&self) -> (r: bool)
        ensures
            r == (self.tree() == Tree::Null),
    {
        match self {
            Json::Null => true,
            _ => false,
        }
    }
}

// ---------------------------------------------------------------- making values
/// What the fields of an object hold.
pub open spec fn fields_tree(fields: Seq<(String, Json)>) -> Seq<(Seq<char>, Tree)> {
    fields.map_values(|f: (String, Json)| (f.0@, f.1.tree()))
}

/// A field.
pub fn field(key: &str, value: Json) -> (f: (String, Json))
    ensures
        f.0@ == key@,
        f.1 == value,
{
    (key.to_owned(), value)
}

/// An object.
pub fn object(fields: Vec<(String, Json)>) -> (j: Json)
    ensures
        j.tree() == Tree::Obj(fields_tree(fields@)),
{
    let j = Json::Obj(fields);
    assert(j.tree()->Obj_0 =~= fields_tree(fields@));
    j
}

/// A list of one value.
pub fn one_value(value: Json) -> (j: Json)
    ensures
        j.tree() == Tree::Arr(seq![value.tree()]),
{
    let mut v: Vec<Json> = Vec::new();
    v.push(value);
    let j = Json::Arr(v);
    assert(j.tree()->Arr_0 =~= seq![value.tree()]);
    j
}

/// A number.
pub fn number(n: u64) -> (j: Json)
    ensures
        j.tree() == Tree::Num(decimal(n as nat)),
{
    Json::Num(decimal_text(n))
}

/// A text.
pub fn string(s: &str) -> (j: Json)
    ensures
        j.tree() == Tree::Str(s@),
{
    Json::Str(s.to_owned())
}

// ---------------------------------------------------------------- serde_json
/// A value of `serde_json`.
#[verifier::external_type_specification]
#[verifier::external_body]
pub struct ExValue(serde_json::Value);

/// What `serde_json::from_str` makes of a text: a value, or why there is none.
pub uninterp spec fn json_of_text(text: Seq<char>) -> Result<Tree, Seq<char>>;

/// What `serde_json::from_slice` makes of some bytes: a value, or why there is none.
pub uninterp spec fn json_of_bytes(bytes: Seq<u8>) -> Result<Tree, Seq<char>>;

/// How `serde_json` prints a value.
pub uninterp spec fn json_text(t: Tree) -> Seq<char>;

/// What a result of reading holds.
pub open spec fn read_tree(r: Result<Json, String>) -> Result<Tree, Seq<char>> {
    match r {
        Ok(j) => Ok(j.tree()),
        Err(e) => Err(e@),
    }
}

/// Moves a value of `serde_json` into a [`Json`], number by number as
/// `serde_json::Number` prints itself.
#[verifier::external_body]
fn from_value(v: serde_json::Value) -> Json {
    match v {
        serde_json::Value::Null => Json::Null,
        serde_json::Value::Bool(b) => Json::Bool(b),
        serde_json::Value::Number(n) => Json::Num(n.to_string()),
        serde_json::Value::String(s) => Json::Str(s),
        serde_json::Value::Array(a) => Json::Arr(a.into_iter().map(from_value).collect()),
        serde_json::Value::Object(m) => Json::Obj(
            m.into_iter().map(|(k, v)| (k, from_value(v))).collect(),
        ),
    }
}

/// Moves a [`Json`] into a value of `serde_json`; a number that does not read
/// back as one becomes null.
#[verifier::external_body]
fn to_value(j: &Json) -> serde_json::Value {
    match j {
        Json::Null => serde_json::Value::Null,
        Json::Bool(b) => serde_json::Value::Bool(*b),
        Json::Num(s) => match serde_json::from_str::<serde_json::Number>(s) {
            Ok(n) => serde_json::Value::Number(n),
            Err(_) => serde_json::Value::Null,
        },
        Json::Str(s) => serde_json::Value::String(s.clone()),
        Json::Arr(a) => serde_json::Value::Array(a.iter().map(to_value).collect()),
        Json::Obj(m) => serde_json::Value::Object(
            m.iter().map(|(k, v)| (k.clone(), to_value(v))).collect(),
        ),
    }
}

/// `serde_json::from_str` reads a text. The value, or the message of the error,
/// is a function of the text, named [`json_of_text`].
#[verifier::external_body]
pub(crate) fn read_text(text: &str) -> (r: Result<Json, String>)
    ensures
        read_tree(r) == json_of_text(text@),
{
    serde_json::from_str(text).map(from_value).map_err(|e| e.to_string())
}

/// `serde_json::from_slice` reads some bytes. The value, or the message of the
/// error, is a function of the bytes, named [`json_of_bytes`].
#[verifier::external_body]
pub(crate) fn read_bytes(bytes: &[u8]) -> (r: Result<Json, String>)
    ensures
        read_tree(r) == json_of_bytes(bytes@),
{
    serde_json::from_slice(bytes).map(from_value).map_err(|e| e.to_string())
}

/// Reads a value, or says why there is none.
pub fn parse(text: &str) -> (r: Result<Json, String>)
    ensures
        read_tree(r) == json_of_text(text@),
{
    read_text(text)
}

/// Whether a text has no line break.
pub open spec fn one_line(s: Seq<char>) -> bool {
    forall|i: int| 0 <= i < s.len() ==> #[trigger] s[i] != '\n'
}

/// The `Display` of `serde_json::Value` prints a value on one line: it puts no
/// white space between its parts, and escapes the control characters of texts.
/// What it prints is a function of the value, named [`json_text`].
#[verifier::external_body]
pub(crate) fn print(j: &Json) -> (r: String)
    ensures
        r@ == json_text(j.tree()),
        one_line(r@),
{
    to_value(j).to_string()
}

} // verus!
