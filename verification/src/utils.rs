//! Small string helpers shared by the protocol and client layers.

use vstd::prelude::*;
use vstd::string::*;

verus! {

/// Whether two string slices hold the same characters.
pub fn str_eq(a: &str, b: &str) -> (r: bool)
    ensures
        r == (a@ == b@),
{
    let n = a.unicode_len();
    let m = b.unicode_len();
    if n != m {
        return false;
    }
    let mut i: usize = 0;
    while i < n
        invariant
            i <= n,
            n == a@.len(),
            n == b@.len(),
            forall|j: int| 0 <= j < i ==> a@[j] == b@[j],
        decreases n - i,
    {
        if a.get_char(i) != b.get_char(i) {
            return false;
        }
        i += 1;
    }
    proof {
        assert(a@ =~= b@);
    }
    true
}

/// Whether `prefix` is a character-wise prefix of `s`.
pub fn str_starts_with(s: &str, prefix: &str) -> (r: bool)
    ensures
        r == prefix@.is_prefix_of(s@),
{
    let n = s.unicode_len();
    let m = prefix.unicode_len();
    if m > n {
        return false;
    }
    let mut i: usize = 0;
    while i < m
        invariant
            i <= m <= n,
            m == prefix@.len(),
            n == s@.len(),
            forall|j: int| 0 <= j < i ==> s@[j] == prefix@[j],
        decreases m - i,
    {
        if s.get_char(i) != prefix.get_char(i) {
            assert(s@.subrange(0, m as int)[i as int] == s@[i as int]);
            return false;
        }
        i += 1;
    }
    proof {
        assert(prefix@ =~= s@.subrange(0, m as int));
    }
    true
}

/// What `parse_server_url` returns: the input itself when it already names
/// a scheme, otherwise the input behind `http://`.
pub open spec fn spec_parse_server_url(s: Seq<char>) -> Seq<char> {
    if "http://"@.is_prefix_of(s) || "https://"@.is_prefix_of(s) {
        s
    } else {
        "http://"@ + s
    }
}

/// Normalizes a server address: addresses without an `http://` or
/// `https://` scheme get `http://` prepended, others pass through unchanged.
pub fn parse_server_url(url: &str) -> (r: String)
    ensures
        r@ == spec_parse_server_url(url@),
{
    if str_starts_with(url, "http://") || str_starts_with(url, "https://") {
        url.to_owned()
    } else {
        let mut r = String::from_str("http://");
        r.append(url);
        r
    }
}

} // verus!
