//! Request parameters as the handlers read them.
//!
//! A parameter of a request is modelled by [`ParamValue`]: absent, JSON
//! `null`, a boolean, a string, or any other JSON value. The checks and
//! defaults that the handlers apply to their parameters are the functions here.
use vstd::prelude::*;
use crate::text::{owned, push_str, string_of};

verus! {

/// One request parameter, as far as the handlers look at it.
#[derive(Debug)]
pub enum ParamValue {
    Absent,
    Null,
    Bool(bool),
    Str(String),
    /// A number, an array or an object.
    Other,
}

/// The string a parameter holds, if it is a string.
pub open spec fn param_str(v: ParamValue) -> Option<Seq<char>> {
    match v {
        ParamValue::Str(s) => Some(s@),
        _ => None,
    }
}

pub open spec fn opt_string_view(o: Option<String>) -> Option<Seq<char>> {
    match o {
        Some(s) => Some(s@),
        None => None,
    }
}

/// The parameter's string, or `None` when it is absent or not a string.
pub fn string_param(v: &ParamValue) -> (r: Option<String>)
    ensures
        opt_string_view(r) == param_str(*v),
{
    match v {
        ParamValue::Str(s) => Some(s.clone()),
        _ => None,
    }
}

pub open spec fn missing_param_message(name: Seq<char>) -> Seq<char> {
    "missing or invalid '"@ + name + "' parameter"@
}

/// A required string parameter (`repo`, `path`, `snapshot_uid`): its string,
/// or the refusal naming it when it is absent or not a string.
pub fn required_string_param(v: &ParamValue, name: &str) -> (r: Result<String, String>)
    ensures
        match param_str(*v) {
            Some(s) => r is Ok && r->Ok_0@ == s,
            None => r is Err && r->Err_0@ == missing_param_message(name@),
        },
{
    match v {
        ParamValue::Str(s) => Ok(s.clone()),
        _ => {
            let mut m: Vec<char> = Vec::new();
            push_str(&mut m, "missing or invalid '");
            push_str(&mut m, name);
            push_str(&mut m, "' parameter");
            Err(string_of(&m))
        },
    }
}

/// The coverage report's path, or the refusal when it is absent or not a string.
pub fn required_report_path(v: &ParamValue) -> (r: Result<String, String>)
    ensures
        match param_str(*v) {
            Some(s) => r is Ok && r->Ok_0@ == s,
            None => r is Err && r->Err_0@ == "missing 'report_path' parameter"@,
        },
{
    match v {
        ParamValue::Str(s) => Ok(s.clone()),
        _ => Err(owned("missing 'report_path' parameter")),
    }
}

pub open spec fn flag_value(v: ParamValue) -> bool {
    match v {
        ParamValue::Bool(b) => b,
        _ => false,
    }
}

/// A boolean flag (`exclude_tests`, `exclude_vendored`): its value when it is
/// a boolean, `false` otherwise.
pub fn flag_param(v: &ParamValue) -> (r: bool)
    ensures
        r == flag_value(*v),
{
    match v {
        ParamValue::Bool(b) => *b,
        _ => false,
    }
}

pub open spec fn str_or(v: ParamValue, default: Seq<char>) -> Seq<char> {
    match param_str(v) {
        Some(s) => s,
        None => default,
    }
}

/// The history window of churn, hotspots and risk: the `since` string,
/// `90.days.ago` when it is absent or not a string.
pub fn since_param(v: &ParamValue) -> (r: String)
    ensures
        r@ == str_or(*v, "90.days.ago"@),
{
    match v {
        ParamValue::Str(s) => s.clone(),
        _ => owned("90.days.ago"),
    }
}

/// The subtree a map renders: the `path` string, the whole repo (empty) when
/// it is absent or not a string.
pub fn map_path_param(v: &ParamValue) -> (r: String)
    ensures
        r@ == str_or(*v, Seq::empty()),
{
    match v {
        ParamValue::Str(s) => s.clone(),
        _ => String::new(),
    }
}

/// What a `retain_rows` parameter asks for: `false` when absent or `null`,
/// the boolean when it is one, and nothing (a refusal) for any other value.
pub open spec fn retain_rows_value(v: ParamValue) -> Option<bool> {
    match v {
        ParamValue::Absent => Some(false),
        ParamValue::Null => Some(false),
        ParamValue::Bool(b) => Some(b),
        _ => None,
    }
}

} // verus!
