//! JSON documents, as the `serde_json` crate holds them.
use vstd::prelude::*;
use serde_json::Value;

verus! {

/// `serde_json::Value`: a JSON document or a part of one.
#[verifier::external_type_specification]
#[verifier::external_body]
pub struct ExValue(serde_json::Value);

/// The members of an object; `None` for any other value.
pub uninterp spec fn members(v: Value) -> Option<Map<Seq<char>, Value>>;

/// The elements of an array; `None` for any other value.
pub uninterp spec fn elements(v: Value) -> Option<Seq<Value>>;

/// A number that is a whole number of 64 bits without a sign; `None` for any
/// other value.
pub uninterp spec fn whole_number(v: Value) -> Option<u64>;

/// The document that a text writes, or what is wrong with it.
pub uninterp spec fn parsed(text: Seq<char>) -> Result<Value, Seq<char>>;

/// `serde_json::from_str` to a `Value`: the document, or the message of the
/// error. What a text parses to is named and not spelled out.
#[verifier::external_body]
pub(crate) fn parse(text: &str) -> (r: Result<Value, String>)
    ensures
        match r {
            Ok(v) => parsed(text@) == Ok::<Value, Seq<char>>(v),
            Err(e) => parsed(text@) == Err::<Value, Seq<char>>(e@),
        },
{
    serde_json::from_str(text).map_err(|e| e.to_string())
}

/// `Value::get` with a string: the member of that name, where the value is an
/// object and has one.
#[verifier::external_body]
pub(crate) fn member<'a>(v: &'a Value, key: &str) -> (m: Option<&'a Value>)
    ensures
        match m {
            Some(x) => members(*v) is Some && members(*v)->Some_0.contains_key(key@) && members(
                *v,
            )->Some_0[key@] == *x,
            None => members(*v) is None || !members(*v)->Some_0.contains_key(key@),
        },
{
    v.get(key)
}

/// `Value::as_u64`: the number, where the value is a whole number that fits.
#[verifier::external_body]
pub(crate) fn as_number(v: &Value) -> (n: Option<u64>)
    ensures
        n == whole_number(*v),
{
    v.as_u64()
}

/// `Value::is_object`: whether the value is an object.
#[verifier::external_body]
pub(crate) fn is_object(v: &Value) -> (b: bool)
    ensures
        b == (members(*v) is Some),
{
    v.is_object()
}

/// `IndexMut` of `Value` with a string: writing a member of an object, whether
/// or not it was there, and nothing else. Values that are not objects are left
/// out: all but `null`, which would become an object first, make it panic.
#[verifier::external_body]
pub(crate) fn set_member(v: &mut Value, key: &str, x: Value)
    requires
        members(*old(v)) is Some,
    ensures
        members(*final(v)) == Some(members(*old(v))->Some_0.insert(key@, x)),
{
    v[key] = x;
}

/// `Value::from` a `u32`: that number.
#[verifier::external_body]
pub(crate) fn number(n: u32) -> (v: Value)
    ensures
        whole_number(v) == Some(n as u64),
{
    Value::from(n)
}

/// `Value::Array` of an empty vector: an array without elements.
#[verifier::external_body]
pub(crate) fn empty_list() -> (v: Value)
    ensures
        elements(v) == Some(Seq::<Value>::empty()),
{
    Value::Array(Vec::new())
}

} // verus!
