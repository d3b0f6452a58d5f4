//! Text: the few operations on strings that the library needs.
use vstd::prelude::*;
use vstd::string::*;

verus! {

/// `p` is a prefix of `s`.
pub open spec fn is_prefix(p: Seq<char>, s: Seq<char>) -> bool {
    p.len() <= s.len() && s.take(p.len() as int) == p
}

/// `p` is a suffix of `s`.
pub open spec fn is_suffix(p: Seq<char>, s: Seq<char>) -> bool {
    p.len() <= s.len() && s.skip(s.len() - p.len()) == p
}

/// `str::strip_prefix` removes a prefix: what remains is `Some` rest of the string if the string
/// begins with the prefix, and `None` otherwise.
#[verifier::external_body]
pub(crate) fn strip_prefix<'a>(s: &'a str, p: &str) -> (r: Option<&'a str>)
    ensures
        match r {
            None => !is_prefix(p@, s@),
            Some(rest) => is_prefix(p@, s@) && rest@ == s@.skip(p@.len() as int),
        },
{
    s.strip_prefix(p)
}

/// `str::strip_suffix` removes a suffix: what remains is `Some` start of the string if the string
/// ends with the suffix, and `None` otherwise.
#[verifier::external_body]
pub(crate) fn strip_suffix<'a>(s: &'a str, p: &str) -> (r: Option<&'a str>)
    ensures
        match r {
            None => !is_suffix(p@, s@),
            Some(rest) => is_suffix(p@, s@) && rest@ == s@.take(s@.len() - p@.len()),
        },
{
    s.strip_suffix(p)
}

/// Two strings in a row.
pub fn concat2(a: &str, b: &str) -> (r: String)
    ensures
        r@ == a@ + b@,
{
    let mut s = a.to_owned();
    s.append(b);
    s
}

/// Three strings in a row.
pub fn concat3(a: &str, b: &str, c: &str) -> (r: String)
    ensures
        r@ == a@ + b@ + c@,
{
    let mut s = a.to_owned();
    s.append(b);
    s.append(c);
    s
}

/// `a` and `b` hold the same characters.
pub fn str_eq(a: &str, b: &str) -> (r: bool)
    ensures
        r == (a@ == b@),
{
    match strip_prefix(a, b) {
        None => {
            proof {
                assert(b@ == a@ ==> a@.take(a@.len() as int) =~= a@);
            }
            false
        },
        Some(rest) => {
            proof {
                if rest@.len() == 0 {
                    assert(a@.take(a@.len() as int) =~= a@);
                }
            }
            rest.is_empty()
        },
    }
}

/// The text of an optional string.
pub open spec fn opt_text(o: Option<String>) -> Option<Seq<char>> {
    match o {
        None => None,
        Some(s) => Some(s@),
    }
}

/// A copy of an optional string.
pub fn clone_opt(o: &Option<String>) -> (r: Option<String>)
    ensures
        opt_text(r) == opt_text(*o),
{
    match o {
        None => None,
        Some(s) => Some(s.clone()),
    }
}

/// Two optional strings hold the same text.
pub fn opt_eq(a: &Option<String>, b: &Option<String>) -> (r: bool)
    ensures
        r == (opt_text(*a) == opt_text(*b)),
{
    match (a, b) {
        (None, None) => true,
        (Some(x), Some(y)) => str_eq(x.as_str(), y.as_str()),
        _ => false,
    }
}

} // verus!
