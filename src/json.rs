//! The JSON value that the library transforms, and its mathematical model.
use vstd::prelude::*;

verus! {

/// A JSON number is carried through unchanged and never inspected.
#[verifier::external_type_specification]
#[verifier::external_body]
pub struct ExNumber(serde_json::Number);

/// A JSON value. Objects keep their entries in order.
#[derive(Debug, PartialEq)]
pub enum Json {
    Null,
    Bool(bool),
    Number(serde_json::Number),
    String(String),
    Array(Vec<Json>),
    Object(Vec<(String, Json)>),
}

/// The model of a JSON value: strings become character sequences and
/// containers become sequences of models.
pub enum JsonV {
    Null,
    Bool(bool),
    Number(serde_json::Number),
    Str(Seq<char>),
    Array(Seq<JsonV>),
    Object(Seq<(Seq<char>, JsonV)>),
}

impl JsonV {
    /// Neither an array nor an object.
    pub open spec fn is_scalar(self) -> bool {
        !(self is Array) && !(self is Object)
    }
}

/// The model of a JSON value.
pub open spec fn json_view(j: Json) -> JsonV
    decreases j,
{
    match j {
        Json::Null => JsonV::Null,
        Json::Bool(b) => JsonV::Bool(b),
        Json::Number(n) => JsonV::Number(n),
        Json::String(s) => JsonV::Str(s@),
        Json::Array(items) => JsonV::Array(
            Seq::new(
                items.len() as nat,
                |i: int|
                    if 0 <= i < items.len() {
                        json_view(items[i])
                    } else {
                        JsonV::Null
                    },
            ),
        ),
        Json::Object(entries) => JsonV::Object(
            Seq::new(
                entries.len() as nat,
                |i: int|
                    if 0 <= i < entries.len() {
                        (entries[i].0@, json_view(entries[i].1))
                    } else {
                        (Seq::empty(), JsonV::Null)
                    },
            ),
        ),
    }
}

/// The name of the kind of a value, as error messages give it.
pub open spec fn kind_name(v: JsonV) -> Seq<char> {
    match v {
        JsonV::Array(_) => "array"@,
        JsonV::Object(_) => "object"@,
        JsonV::Null => "null"@,
        JsonV::Str(_) => "string"@,
        JsonV::Number(_) => "number"@,
        JsonV::Bool(_) => "boolean"@,
    }
}

impl View for Json {
    type V = JsonV;

    open spec fn view(&self) -> JsonV {
        json_view(*self)
    }
}

/// The models of a sequence of values.
pub open spec fn seq_views(v: Seq<Json>) -> Seq<JsonV> {
    v.map_values(|j: Json| j@)
}

/// The models of a sequence of object entries.
pub open spec fn field_views(v: Seq<(String, Json)>) -> Seq<(Seq<char>, JsonV)> {
    v.map_values(|e: (String, Json)| (e.0@, e.1@))
}

/// A value of another kind than the one asked for, or a number that does
/// not fit the integer type asked for.
#[derive(Debug, PartialEq, Eq)]
pub enum ValueError {
    Mismatch { expected: &'static str, found: &'static str },
    NotInteger,
    NotUnsigned,
}

/// What `as_i64` gives for a JSON number.
pub uninterp spec fn number_as_i64(n: serde_json::Number) -> Option<i64>;

/// What `as_u64` gives for a JSON number.
pub uninterp spec fn number_as_u64(n: serde_json::Number) -> Option<u64>;

/// Relies on `serde_json::Number::as_i64`: the integer, when the number is
/// one that fits an `i64`.
#[verifier::external_body]
fn as_i64(n: &serde_json::Number) -> (r: Option<i64>)
    ensures
        r == number_as_i64(*n),
{
    n.as_i64()
}

/// Relies on `serde_json::Number::as_u64`: the integer, when the number is
/// one that fits a `u64`.
#[verifier::external_body]
fn as_u64(n: &serde_json::Number) -> (r: Option<u64>)
    ensures
        r == number_as_u64(*n),
{
    n.as_u64()
}

/// Typed access to a JSON value.
pub trait ValueExt: Sized {
    spec fn model(&self) -> JsonV;

    fn kind(&self) -> (r: &'static str)
        ensures
            r@ == kind_name(self.model()),
    ;

    fn unwrap_array(self) -> (r: Vec<Json>)
        requires
            self.model() is Array,
        ensures
            seq_views(r@) == self.model()->Array_0,
    ;

    fn unwrap_object(self) -> (r: Vec<(String, Json)>)
        requires
            self.model() is Object,
        ensures
            field_views(r@) == self.model()->Object_0,
    ;

    fn unwrap_string(self) -> (r: String)
        requires
            self.model() is Str,
        ensures
            r@ == self.model()->Str_0,
    ;

    fn unwrap_str(&self) -> (r: &str)
        requires
            self.model() is Str,
        ensures
            r@ == self.model()->Str_0,
    ;

    fn expect_string(self) -> (r: Result<String, ValueError>)
        ensures
            (self.model() is Str) <==> (r is Ok),
            r is Ok ==> r->Ok_0@ == self.model()->Str_0,
            r is Err ==> r->Err_0 == (ValueError::Mismatch { expected: "string", found: r->Err_0->found })
                && r->Err_0->found@ == kind_name(self.model()),
    ;

    fn expect_object(self) -> (r: Result<Vec<(String, Json)>, ValueError>)
        ensures
            (self.model() is Object) <==> (r is Ok),
            r is Ok ==> field_views(r->Ok_0@) == self.model()->Object_0,
            r is Err ==> r->Err_0 == (ValueError::Mismatch { expected: "object", found: r->Err_0->found })
                && r->Err_0->found@ == kind_name(self.model()),
    ;

    fn expect_array(self) -> (r: Result<Vec<Json>, ValueError>)
        ensures
            (self.model() is Array) <==> (r is Ok),
            r is Ok ==> seq_views(r->Ok_0@) == self.model()->Array_0,
            r is Err ==> r->Err_0 == (ValueError::Mismatch { expected: "array", found: r->Err_0->found })
                && r->Err_0->found@ == kind_name(self.model()),
    ;

    fn expect_number(self) -> (r: Result<serde_json::Number, ValueError>)
        ensures
            (self.model() is Number) <==> (r is Ok),
            r is Ok ==> r->Ok_0 == self.model()->Number_0,
            r is Err ==> r->Err_0 == (ValueError::Mismatch { expected: "number", found: r->Err_0->found })
                && r->Err_0->found@ == kind_name(self.model()),
    ;

    fn expect_int(self) -> (r: Result<i64, ValueError>)
        ensures
            match self.model() {
                JsonV::Number(n) => match number_as_i64(n) {
                    Some(i) => r == Ok::<i64, ValueError>(i),
                    None => r == Err::<i64, ValueError>(ValueError::NotInteger),
                },
                _ => r is Err && r->Err_0 == (ValueError::Mismatch { expected: "number", found: r->Err_0->found })
                    && r->Err_0->found@ == kind_name(self.model()),
            },
    ;

    fn expect_uint(self) -> (r: Result<u64, ValueError>)
        ensures
            match self.model() {
                JsonV::Number(n) => match number_as_u64(n) {
                    Some(i) => r == Ok::<u64, ValueError>(i),
                    None => r == Err::<u64, ValueError>(ValueError::NotUnsigned),
                },
                _ => r is Err && r->Err_0 == (ValueError::Mismatch { expected: "number", found: r->Err_0->found })
                    && r->Err_0->found@ == kind_name(self.model()),
            },
    ;
}

impl ValueExt for Json {
    open spec fn model(&self) -> JsonV {
        self@
    }

    fn kind(&self) -> (r: &'static str) {
        match self {
            Json::Array(_) => "array",
            Json::Object(_) => "object",
            Json::Null => "null",
            Json::String(_) => "string",
            Json::Number(_) => "number",
            Json::Bool(_) => "boolean",
        }
    }

    fn unwrap_array(self) -> (r: Vec<Json>) {
        let ghost whole = self@;
        match self {
            Json::Array(items) => {
                assert(seq_views(items@) =~= whole->Array_0);
                items
            },
            _ => {
                assert(false);
                Vec::new()
            },
        }
    }

    fn unwrap_object(self) -> (r: Vec<(String, Json)>) {
        let ghost whole = self@;
        match self {
            Json::Object(fields) => {
                assert(field_views(fields@) =~= whole->Object_0);
                fields
            },
            _ => {
                assert(false);
                Vec::new()
            },
        }
    }

    fn unwrap_string(self) -> (r: String) {
        match self {
            Json::String(s) => s,
            _ => {
                assert(false);
                String::new()
            },
        }
    }

    fn unwrap_str(&self) -> (r: &str) {
        match self {
            Json::String(s) => s.as_str(),
            _ => {
                assert(false);
                ""
            },
        }
    }

    fn expect_string(self) -> (r: Result<String, ValueError>) {
        let found = self.kind();
        match self {
            Json::String(s) => Ok(s),
            _ => Err(ValueError::Mismatch { expected: "string", found }),
        }
    }

    fn expect_object(self) -> (r: Result<Vec<(String, Json)>, ValueError>) {
        let found = self.kind();
        let ghost whole = self@;
        match self {
            Json::Object(fields) => {
                assert(field_views(fields@) =~= whole->Object_0);
                Ok(fields)
            },
            _ => Err(ValueError::Mismatch { expected: "object", found }),
        }
    }

    fn expect_array(self) -> (r: Result<Vec<Json>, ValueError>) {
        let found = self.kind();
        let ghost whole = self@;
        match self {
            Json::Array(items) => {
                assert(seq_views(items@) =~= whole->Array_0);
                Ok(items)
            },
            _ => Err(ValueError::Mismatch { expected: "array", found }),
        }
    }

    fn expect_number(self) -> (r: Result<serde_json::Number, ValueError>) {
        let found = self.kind();
        match self {
            Json::Number(n) => Ok(n),
            _ => Err(ValueError::Mismatch { expected: "number", found }),
        }
    }

    fn expect_int(self) -> (r: Result<i64, ValueError>) {
        let n = self.expect_number()?;
        match as_i64(&n) {
            Some(i) => Ok(i),
            None => Err(ValueError::NotInteger),
        }
    }

    fn expect_uint(self) -> (r: Result<u64, ValueError>) {
        let n = self.expect_number()?;
        match as_u64(&n) {
            Some(i) => Ok(i),
            None => Err(ValueError::NotUnsigned),
        }
    }
}

} // verus!
