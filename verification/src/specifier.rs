//! Specifier strings: `name`, `name@range`, `@scope/name` and
//! `@scope/name@range`.
//!
//! The split point is the last `@` that does not open the string, so a
//! scoped name keeps its scope. Surrounding whitespace, an empty name and
//! an empty range are rejected; an absent range stands for the latest
//! version.

use crate::registry::{RequestPackage, RequestV};
use crate::semver::{is_ws, push_char, ws_ok};
use vstd::prelude::*;
use vstd::string::*;

verus! {

/// Why a specifier was rejected.
#[derive(Debug, Clone, Copy, PartialEq, Eq, Structural)]
pub enum ParseError {
    /// The input was empty.
    EmptyName,
    /// The input began or ended with whitespace.
    SurroundingWhitespace,
    /// An `@` announced a range and nothing followed it.
    EmptyRange,
}

/// Index of the last occurrence of `c` in `s`, if any.
pub open spec fn rfind_char(s: Seq<char>, c: char) -> Option<int>
    decreases s.len(),
{
    if s.len() == 0 {
        None
    } else if s.last() == c {
        Some(s.len() - 1)
    } else {
        rfind_char(s.drop_last(), c)
    }
}

/// What `rfind_char` returns: the last index holding `c`, or a guarantee
/// that no index does.
pub proof fn lemma_rfind_char(s: Seq<char>, c: char)
    ensures
        match rfind_char(s, c) {
            Some(i) => 0 <= i < s.len() && s[i] == c && forall|k: int| i < k < s.len() ==> s[k] != c,
            None => forall|k: int| 0 <= k < s.len() ==> s[k] != c,
        },
    decreases s.len(),
{
    if s.len() > 0 && s.last() != c {
        let t = s.drop_last();
        lemma_rfind_char(t, c);
        assert forall|k: int| 0 <= k < s.len() - 1 implies #[trigger] s[k] == t[k] by {}
        match rfind_char(t, c) {
            Some(i) => {
                assert forall|k: int| i < k < s.len() implies s[k] != c by {
                    if k < s.len() - 1 {
                        assert(t[k] != c);
                        assert(s[k] == t[k]);
                    } else {
                        assert(s[k] == s.last());
                    }
                }
            },
            None => {
                assert forall|k: int| 0 <= k < s.len() implies s[k] != c by {
                    if k < s.len() - 1 {
                        assert(t[k] != c);
                        assert(s[k] == t[k]);
                    }
                }
            },
        }
    }
}

/// A scan from the end that stopped at the first hit computed `rfind_char`.
pub proof fn lemma_rfind_char_at(s: Seq<char>, c: char, i: int)
    requires
        0 <= i < s.len(),
        s[i] == c,
        forall|k: int| i < k < s.len() ==> s[k] != c,
    ensures
        rfind_char(s, c) == Some(i),
{
    lemma_rfind_char(s, c);
    match rfind_char(s, c) {
        Some(j) => {
            if j < i {
                assert(s[i] != c);
            } else if i < j {
                assert(s[j] == c);
            }
        },
        None => {
            assert(s[i] != c);
        },
    }
}

/// The specifier grammar. The name is everything before the last `@` that
/// is not at the start; with no such `@` the whole input is the name and
/// the range is absent, meaning latest.
pub open spec fn spec_parse_request(s: Seq<char>) -> Result<RequestV, ParseError> {
    if s.len() == 0 {
        Err(ParseError::EmptyName)
    } else if is_ws(s.first()) || is_ws(s.last()) {
        Err(ParseError::SurroundingWhitespace)
    } else {
        match rfind_char(s, '@') {
            None => Ok(RequestV { name: s, version: None }),
            Some(p) => {
                if p == 0 {
                    Ok(RequestV { name: s, version: None })
                } else if p + 1 == s.len() {
                    Err(ParseError::EmptyRange)
                } else {
                    Ok(RequestV { name: s.take(p), version: Some(s.skip(p + 1)) })
                }
            },
        }
    }
}

/// The text a request came from: the name, then `@range` when a range is
/// present.
pub open spec fn spec_format_request(r: RequestV) -> Seq<char> {
    match r.version {
        None => r.name,
        Some(v) => r.name + seq!['@'] + v,
    }
}

/// Index of the last occurrence of `c`, as `rfind_char` names it.
pub fn rfind_char_in(s: &str, c: char) -> (r: Option<usize>)
    ensures
        match r {
            Some(i) => rfind_char(s@, c) == Some(i as int),
            None => rfind_char(s@, c) is None,
        },
{
    let n = s.unicode_len();
    let mut i: usize = n;
    while i > 0
        invariant
            0 <= i <= n,
            n == s@.len(),
            forall|k: int| i <= k < n ==> s@[k] != c,
        decreases i,
    {
        i = i - 1;
        if s.get_char(i) == c {
            proof {
                lemma_rfind_char_at(s@, c, i as int);
            }
            return Some(i);
        }
    }
    proof {
        lemma_rfind_char(s@, c);
        if let Some(j) = rfind_char(s@, c) {
            assert(s@[j] != c);
        }
    }
    None
}

/// Parses a specifier, as `spec_parse_request` defines it: the name before
/// the last `@` not at the start, the range after it, `None` for no range.
/// Surrounding whitespace, an empty input and an empty range are errors.
pub fn parse_package_str(package: String) -> (r: Result<RequestPackage, ParseError>)
    ensures
        match r {
            Ok(p) => spec_parse_request(package@) == Ok::<RequestV, ParseError>(p@),
            Err(e) => spec_parse_request(package@) == Err::<RequestV, ParseError>(e),
        },
{
    let s = package.as_str();
    let n = s.unicode_len();
    if n == 0 {
        return Err(ParseError::EmptyName);
    }
    if ws_ok(s.get_char(0)) || ws_ok(s.get_char(n - 1)) {
        return Err(ParseError::SurroundingWhitespace);
    }
    match rfind_char_in(s, '@') {
        None => Ok(RequestPackage { name: package, version: None }),
        Some(p) => {
            proof {
                lemma_rfind_char(package@, '@');
            }
            if p == 0 {
                Ok(RequestPackage { name: package, version: None })
            } else if p + 1 == n {
                Err(ParseError::EmptyRange)
            } else {
                let name = String::from_str(s.substring_char(0, p));
                let version = String::from_str(s.substring_char(p + 1, n));
                proof {
                    assert(name@ =~= package@.take(p as int));
                    assert(version@ =~= package@.skip(p as int + 1));
                }
                Ok(RequestPackage { name, version: Some(version) })
            }
        },
    }
}

/// Renders a request back to specifier text, as `spec_format_request`
/// names it.
pub fn format_request(p: &RequestPackage) -> (r: String)
    ensures
        r@ == spec_format_request(p@),
{
    let mut out = p.name.clone();
    match &p.version {
        Some(v) => {
            push_char(&mut out, '@');
            out.append(v.as_str());
            proof {
                assert(out@ =~= spec_format_request(p@));
            }
        },
        None => {},
    }
    out
}

/// Parsing is a retraction of formatting: rendering a parsed specifier
/// gives the original text back, so parsing again gives the same request.
pub proof fn lemma_parse_format_roundtrip(s: Seq<char>)
    requires
        spec_parse_request(s) is Ok,
    ensures
        spec_format_request(spec_parse_request(s)->Ok_0) == s,
        spec_parse_request(spec_format_request(spec_parse_request(s)->Ok_0)) == spec_parse_request(
            s,
        ),
{
    lemma_rfind_char(s, '@');
    let r = spec_parse_request(s)->Ok_0;
    match rfind_char(s, '@') {
        None => {},
        Some(p) => {
            if p > 0 {
                assert(spec_format_request(r) =~= s);
            }
        },
    }
}

/// The views of a run of requests.
pub open spec fn request_views(s: Seq<RequestPackage>) -> Seq<RequestV> {
    s.map_values(|p: RequestPackage| p@)
}

/// The requests of `s` that carry a range, in order.
pub open spec fn with_range_of(s: Seq<RequestV>) -> Seq<RequestV>
    decreases s.len(),
{
    if s.len() == 0 {
        Seq::<RequestV>::empty()
    } else {
        let r = with_range_of(s.drop_last());
        if s.last().version is Some {
            r.push(s.last())
        } else {
            r
        }
    }
}

/// The requests of `s` that carry no range, in order.
pub open spec fn without_range_of(s: Seq<RequestV>) -> Seq<RequestV>
    decreases s.len(),
{
    if s.len() == 0 {
        Seq::<RequestV>::empty()
    } else {
        let r = without_range_of(s.drop_last());
        if s.last().version is None {
            r.push(s.last())
        } else {
            r
        }
    }
}

/// Splits requests into those that carry a range and those that do not:
/// the two results are exactly the input's ranged and bare subsequences,
/// in order.
pub fn partition_by_version(packages: &Vec<RequestPackage>) -> (r: (
    Vec<RequestPackage>,
    Vec<RequestPackage>,
))
    ensures
        request_views(r.0@) == with_range_of(request_views(packages@)),
        request_views(r.1@) == without_range_of(request_views(packages@)),
        r.0@.len() + r.1@.len() == packages@.len(),
{
    let ghost pv = request_views(packages@);
    let mut with_version: Vec<RequestPackage> = Vec::new();
    let mut without_version: Vec<RequestPackage> = Vec::new();
    let mut i: usize = 0;
    proof {
        assert(pv.take(0) =~= Seq::<RequestV>::empty());
        assert(request_views(with_version@) =~= with_range_of(pv.take(0)));
        assert(request_views(without_version@) =~= without_range_of(pv.take(0)));
    }
    while i < packages.len()
        invariant
            0 <= i <= packages@.len(),
            pv == request_views(packages@),
            request_views(with_version@) == with_range_of(pv.take(i as int)),
            request_views(without_version@) == without_range_of(pv.take(i as int)),
            with_version@.len() + without_version@.len() == i,
        decreases packages@.len() - i,
    {
        let p = packages[i].clone();
        proof {
            assert(pv[i as int] == packages@[i as int]@);
            assert(pv.take(i as int + 1).drop_last() =~= pv.take(i as int));
            assert(pv.take(i as int + 1).last() == pv[i as int]);
        }
        match &p.version {
            Some(_) => {
                let ghost pre = with_version@;
                with_version.push(p);
                proof {
                    assert(forall|k: int|
                        0 <= k < pre.len() ==> #[trigger] with_version@[k] == pre[k]);
                    assert(request_views(pre).len() == pre.len());
                    assert(with_version@[pre.len() as int]@ == pv[i as int]);
                    assert(request_views(with_version@) =~= request_views(pre).push(
                        pv[i as int],
                    ));
                }
            },
            None => {
                let ghost pre = without_version@;
                without_version.push(p);
                proof {
                    assert(forall|k: int|
                        0 <= k < pre.len() ==> #[trigger] without_version@[k] == pre[k]);
                    assert(request_views(pre).len() == pre.len());
                    assert(without_version@[pre.len() as int]@ == pv[i as int]);
                    assert(request_views(without_version@) =~= request_views(pre).push(
                        pv[i as int],
                    ));
                }
            },
        }
        i = i + 1;
    }
    proof {
        assert(pv.take(packages@.len() as int) =~= pv);
    }
    (with_version, without_version)
}

} // verus!
