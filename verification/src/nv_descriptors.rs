//! The register descriptions of the non-volatile structures: the name each takes from its file,
//! the report on a description that does not validate, and where its JSON form is written.
use vstd::prelude::*;

use crate::fmt::{push_str, string_from_chars};
use crate::order::texts;
use crate::text::{spec_strip_suffix, strip_suffix};

verus! {

/// The name of a description from its file name, which ends in `.yaml`.
pub open spec fn spec_descriptor_name(file_name: Seq<char>) -> Option<Seq<char>> {
    spec_strip_suffix(file_name, ".yaml"@)
}

/// The name of a description from its file name `file_name`, or `None` where the file name does
/// not end in `.yaml`.
pub fn descriptor_name(file_name: &str) -> (r: Option<String>)
    ensures
        match spec_descriptor_name(file_name@) {
            Some(n) => r matches Some(t) && t@ == n,
            None => r is None,
        },
{
    match strip_suffix(file_name, ".yaml") {
        Some(n) => Some(n.to_string()),
        None => None,
    }
}

/// The validation errors, each on a line of its own.
pub open spec fn error_lines(errors: Seq<Seq<char>>) -> Seq<char>
    decreases errors.len(),
{
    if errors.len() == 0 {
        Seq::empty()
    } else {
        error_lines(errors.drop_last()) + errors.last() + "\n"@
    }
}

/// The report on the description `name`: none where validation found no error, else the name
/// on a line of its own and each error on a line.
pub open spec fn spec_validation_report(name: Seq<char>, errors: Seq<Seq<char>>) -> Option<Seq<char>> {
    if errors.len() == 0 {
        None
    } else {
        Some("\n"@ + name + ":\n"@ + error_lines(errors))
    }
}

/// The report on the description `name` whose validation gave `errors` (see
/// `spec_validation_report`).
pub fn validation_report(name: &str, errors: &Vec<String>) -> (r: Option<String>)
    ensures
        match spec_validation_report(name@, texts(errors@)) {
            Some(t) => r matches Some(x) && x@ == t,
            None => r is None,
        },
{
    if errors.len() == 0 {
        return None;
    }
    let ghost es = texts(errors@);
    let mut lines: Vec<char> = Vec::new();
    let mut i: usize = 0;
    while i < errors.len()
        invariant
            es == texts(errors@),
            i <= errors@.len(),
            lines@ == error_lines(es.take(i as int)),
        decreases errors@.len() - i,
    {
        push_str(&mut lines, errors[i].as_str());
        push_str(&mut lines, "\n");
        i += 1;
        assert(es.take(i as int).drop_last() =~= es.take(i - 1));
        assert(lines@ =~= error_lines(es.take(i as int)));
    }
    assert(es.take(errors@.len() as int) =~= es);
    let mut out: Vec<char> = Vec::new();
    push_str(&mut out, "\n");
    push_str(&mut out, name);
    push_str(&mut out, ":\n");
    crate::fmt::push_chars(&mut out, &lines);
    Some(string_from_chars(&out))
}

/// Where the JSON form of the description `name` is written.
pub open spec fn spec_descriptor_json_path(name: Seq<char>) -> Seq<char> {
    "build/data/nv/"@ + name + ".json"@
}

/// Where the JSON form of the description `name` is written.
pub fn descriptor_json_path(name: &str) -> (r: String)
    ensures
        r@ == spec_descriptor_json_path(name@),
{
    let mut out: Vec<char> = Vec::new();
    push_str(&mut out, "build/data/nv/");
    push_str(&mut out, name);
    push_str(&mut out, ".json");
    string_from_chars(&out)
}

} // verus!
