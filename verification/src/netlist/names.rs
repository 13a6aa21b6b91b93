use vstd::prelude::*;
use crate::text::{push_str, replace_char, replace_char_str, trim, trim_str};

verus! {

/// A name part with surrounding whitespace removed and `-` turned into `_`.
pub open spec fn sanitized(value: Seq<char>) -> Seq<char> {
    replace_char(trim(value), '-', '_')
}

/// `{param}__{instance}__{branch}`, each part sanitized.
pub open spec fn param_name(param: Seq<char>, instance: Seq<char>, branch: Seq<char>) -> Seq<
    char,
> {
    sanitized(param) + seq!['_', '_'] + sanitized(instance) + seq!['_', '_'] + sanitized(branch)
}

/// `{prefix}_{param}__{instance}__{branch}`, each part sanitized.
pub open spec fn element_name(
    spice_prefix: Seq<char>,
    param: Seq<char>,
    instance: Seq<char>,
    branch: Seq<char>,
) -> Seq<char> {
    sanitized(spice_prefix) + seq!['_'] + param_name(param, instance, branch)
}

fn sanitize_name(value: &str) -> (r: String)
    ensures
        r@ == sanitized(value@),
{
    let trimmed = trim_str(value);
    replace_char_str(trimmed.as_str(), '-', '_')
}

/// Name of the small-signal parameter of `branch` in `instance`.
pub fn small_signal_param_name(param: &str, instance: &str, branch: &str) -> (r: String)
    ensures
        r@ == param_name(param@, instance@, branch@),
{
    let mut out = sanitize_name(param);
    let p = sanitize_name(instance);
    let b = sanitize_name(branch);
    push_str(&mut out, "__");
    push_str(&mut out, p.as_str());
    push_str(&mut out, "__");
    push_str(&mut out, b.as_str());
    proof {
        reveal_strlit("__");
    }
    out
}

/// Name of the small-signal SPICE element of `branch` in `instance`.
pub fn small_signal_element_name(spice_prefix: &str, param: &str, instance: &str, branch: &str) -> (r:
    String)
    ensures
        r@ == element_name(spice_prefix@, param@, instance@, branch@),
{
    let mut out = sanitize_name(spice_prefix);
    let rest = small_signal_param_name(param, instance, branch);
    push_str(&mut out, "_");
    push_str(&mut out, rest.as_str());
    proof {
        reveal_strlit("_");
    }
    out
}

} // verus!
