//! The built-in functions of the language's standard library and the
//! modules they belong to.
use vstd::prelude::*;
use crate::text::{chars_eq_lit, chars_of};

verus! {

/// The module of a built-in function, if the name is one.
pub open spec fn builtin_module(name: Seq<char>) -> Option<Seq<char>> {
    if name == "println"@ || name == "print"@ {
        Some("io"@)
    } else if name == "len"@ || name == "int_to_string"@ || name == "string_to_int"@ || name == "trim"@ || name
        == "upper"@ || name == "lower"@ || name == "split"@ || name == "contains"@ || name == "replace"@ || name
        == "starts_with"@ || name == "ends_with"@ {
        Some("string"@)
    } else if name == "sqrt"@ || name == "abs"@ || name == "min"@ || name == "max"@ {
        Some("math"@)
    } else if name == "list_empty"@ || name == "list_length"@ || name == "list_get"@ || name == "list_is_empty"@
        || name == "list_head"@ || name == "list_tail"@ || name == "list_cons"@ {
        Some("list"@)
    } else if name == "json_parse"@ || name == "json_stringify"@ {
        Some("json"@)
    } else if name == "file_read"@ || name == "file_write"@ || name == "file_append"@ || name == "file_exists"@ {
        Some("file"@)
    } else if name == "args"@ {
        Some("env"@)
    } else {
        None
    }
}

/// Whether a name is a built-in function (imported or not).
pub fn is_known_builtin(name: &str) -> (r: bool)
    ensures
        r == builtin_module(name@) is Some,
{
    module_of(name).is_some()
}

/// The standard-library module a built-in function belongs to.
pub fn module_of(name: &str) -> (r: Option<&'static str>)
    ensures
        match builtin_module(name@) {
            Some(m) => r matches Some(x) && x@ == m,
            None => r is None,
        },
{
    let n = chars_of(name);
    if chars_eq_lit(&n, "println") || chars_eq_lit(&n, "print") {
        Some("io")
    } else if chars_eq_lit(&n, "len") || chars_eq_lit(&n, "int_to_string") || chars_eq_lit(&n, "string_to_int")
        || chars_eq_lit(&n, "trim") || chars_eq_lit(&n, "upper") || chars_eq_lit(&n, "lower") || chars_eq_lit(
        &n,
        "split",
    ) || chars_eq_lit(&n, "contains") || chars_eq_lit(&n, "replace") || chars_eq_lit(&n, "starts_with")
        || chars_eq_lit(&n, "ends_with") {
        Some("string")
    } else if chars_eq_lit(&n, "sqrt") || chars_eq_lit(&n, "abs") || chars_eq_lit(&n, "min") || chars_eq_lit(
        &n,
        "max",
    ) {
        Some("math")
    } else if chars_eq_lit(&n, "list_empty") || chars_eq_lit(&n, "list_length") || chars_eq_lit(&n, "list_get")
        || chars_eq_lit(&n, "list_is_empty") || chars_eq_lit(&n, "list_head") || chars_eq_lit(&n, "list_tail")
        || chars_eq_lit(&n, "list_cons") {
        Some("list")
    } else if chars_eq_lit(&n, "json_parse") || chars_eq_lit(&n, "json_stringify") {
        Some("json")
    } else if chars_eq_lit(&n, "file_read") || chars_eq_lit(&n, "file_write") || chars_eq_lit(&n, "file_append")
        || chars_eq_lit(&n, "file_exists") {
        Some("file")
    } else if chars_eq_lit(&n, "args") {
        Some("env")
    } else {
        None
    }
}

} // verus!
