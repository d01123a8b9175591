//! The plain specifier grammar older call sites use:
//! `[author/]name[@version]`, the author with one optional leading `@`.
//!
//! An author part is recognised only when the text up to the first slash
//! could be one: otherwise the slash belongs to the name. The name may
//! not hold an `@`; the version after the first `@` may, but holds no
//! whitespace.

use crate::semver::{find_char, find_char_in, is_ws, lemma_find_char, ws_ok};
use crate::shared::{spec_parse_op_version, Package, Semver};
use vstd::prelude::*;
use vstd::string::*;

verus! {

/// No character of `s` is whitespace.
pub open spec fn no_ws(s: Seq<char>) -> bool {
    forall|i: int| 0 <= i < s.len() ==> !is_ws(#[trigger] s[i])
}

/// The name and optional version of the text after any author: the name
/// is everything before the first `@` and must be non-empty; the version
/// after it must be non-empty and free of whitespace.
pub open spec fn spec_name_ver(rest: Seq<char>) -> Option<(Seq<char>, Option<Seq<char>>)> {
    match find_char(rest, '@') {
        None => if rest.len() > 0 {
            Some((rest, None::<Seq<char>>))
        } else {
            None
        },
        Some(q) => {
            let name = rest.take(q);
            let ver = rest.skip(q + 1);
            if name.len() > 0 && ver.len() > 0 && no_ws(ver) {
                Some((name, Some(ver)))
            } else {
                None
            }
        },
    }
}

/// An author part: one optional leading `@`, then at least one further
/// character, none of them `@`.
pub open spec fn valid_author(pre: Seq<char>) -> bool {
    if pre.len() > 0 && pre[0] == '@' {
        pre.len() >= 2 && forall|i: int| 1 <= i < pre.len() ==> pre[i] != '@'
    } else {
        pre.len() >= 1 && forall|i: int| 0 <= i < pre.len() ==> pre[i] != '@'
    }
}

/// The author part without its optional leading `@`.
pub open spec fn strip_at(pre: Seq<char>) -> Seq<char> {
    if pre.len() > 0 && pre[0] == '@' {
        pre.skip(1)
    } else {
        pre
    }
}

/// The whole specifier grammar. The text before the first slash is taken
/// as the author when it can be one and the remainder still parses;
/// otherwise the whole text is name and version.
pub open spec fn spec_parse_package(s: Seq<char>) -> Option<
    (Option<Seq<char>>, Seq<char>, Option<Seq<char>>),
> {
    let attempt = match find_char(s, '/') {
        Some(p) => {
            let pre = s.take(p);
            if valid_author(pre) {
                match spec_name_ver(s.skip(p + 1)) {
                    Some(nv) => Some((Some(strip_at(pre)), nv.0, nv.1)),
                    None => None,
                }
            } else {
                None
            }
        },
        None => None,
    };
    match attempt {
        Some(r) => Some(r),
        None => match spec_name_ver(s) {
            Some(nv) => Some((None::<Seq<char>>, nv.0, nv.1)),
            None => None,
        },
    }
}

fn name_ver_exec(rest: &str) -> (r: Option<(String, Option<String>)>)
    ensures
        match r {
            Some(nv) => spec_name_ver(rest@) matches Some(t) && nv.0@ == t.0 && (match nv.1 {
                Some(v) => t.1 == Some(v@),
                None => t.1 is None,
            }),
            None => spec_name_ver(rest@) is None,
        },
{
    let n = rest.unicode_len();
    match find_char_in(rest, '@') {
        None => {
            if n > 0 {
                Some((String::from_str(rest), None))
            } else {
                None
            }
        },
        Some(q) => {
            proof {
                lemma_find_char(rest@, '@');
            }
            let name = rest.substring_char(0, q);
            let ver = rest.substring_char(q + 1, n);
            proof {
                assert(name@ =~= rest@.take(q as int));
                assert(ver@ =~= rest@.skip(q as int + 1));
            }
            if name.unicode_len() == 0 {
                return None;
            }
            let vn = ver.unicode_len();
            if vn == 0 {
                return None;
            }
            let mut i: usize = 0;
            while i < vn
                invariant
                    0 <= i <= vn,
                    vn == ver@.len(),
                    vn > 0,
                    find_char(rest@, '@') == Some(q as int),
                    0 <= q < rest@.len(),
                    ver@ == rest@.skip(q as int + 1),
                    name@ == rest@.take(q as int),
                    name@.len() > 0,
                    forall|k: int| 0 <= k < i ==> !is_ws(#[trigger] ver@[k]),
                decreases vn - i,
            {
                if ws_ok(ver.get_char(i)) {
                    proof {
                        assert(is_ws(ver@[i as int]));
                        assert(!no_ws(rest@.skip(q as int + 1)));
                    }
                    return None;
                }
                i = i + 1;
            }
            Some((String::from_str(name), Some(String::from_str(ver))))
        },
    }
}

fn valid_author_exec(pre: &str) -> (r: bool)
    ensures
        r == valid_author(pre@),
{
    let n = pre.unicode_len();
    if n == 0 {
        return false;
    }
    let start: usize = if pre.get_char(0) == '@' {
        1
    } else {
        0
    };
    if n <= start {
        return false;
    }
    let mut i: usize = start;
    while i < n
        invariant
            start <= i <= n,
            n == pre@.len(),
            start == 1 ==> pre@[0] == '@',
            start == 0 ==> pre@[0] != '@',
            n > start,
            forall|k: int| start <= k < i ==> pre@[k] != '@',
        decreases n - i,
    {
        if pre.get_char(i) == '@' {
            return false;
        }
        i = i + 1;
    }
    true
}

/// Reads a version text as a comparator version, `None` when it is
/// outside the grammar.
pub fn parse_version(version: &str) -> (r: Option<Semver>)
    ensures
        match r {
            Some(v) => spec_parse_op_version(version@) matches Some(t) && v@.operator == Some(t.0)
                && v@.major == t.1 && v@.minor == t.2 && v@.patch == t.3 && v@.complete
                == version@,
            None => spec_parse_op_version(version@) is None,
        },
{
    match Semver::parse_str(version) {
        Ok(v) => Some(v),
        Err(_) => None,
    }
}

/// Parses `[author/]name[@version]`, as `spec_parse_package` names it;
/// the version text is then read as a comparator version and dropped
/// when it is outside that grammar.
pub fn parse_package(package: String) -> (r: Result<Package, String>)
    ensures
        match r {
            Ok(p) => spec_parse_package(package@) matches Some(t) && (match p.author {
                Some(a) => t.0 == Some(a@),
                None => t.0 is None,
            }) && p.name@ == t.1 && (match t.2 {
                Some(vt) => match spec_parse_op_version(vt) {
                    Some(m) => p.version matches Some(v) && v@.operator == Some(m.0) && v@.major
                        == m.1 && v@.minor == m.2 && v@.patch == m.3 && v@.complete == vt,
                    None => p.version is None,
                },
                None => p.version is None,
            }),
            Err(e) => spec_parse_package(package@) is None && e@ == "failed to parse package: "@
                + package@,
        },
{
    let s = package.as_str();
    let n = s.unicode_len();
    let mut author: Option<String> = None;
    let mut name_ver: Option<(String, Option<String>)> = None;
    match find_char_in(s, '/') {
        Some(p) => {
            proof {
                lemma_find_char(s@, '/');
            }
            let pre = s.substring_char(0, p);
            proof {
                assert(pre@ =~= s@.take(p as int));
            }
            if valid_author_exec(pre) {
                let tail = s.substring_char(p + 1, n);
                proof {
                    assert(tail@ =~= s@.skip(p as int + 1));
                }
                match name_ver_exec(tail) {
                    Some(nv) => {
                        let pn = pre.unicode_len();
                        let stripped = if pre.get_char(0) == '@' {
                            let st = pre.substring_char(1, pn);
                            proof {
                                assert(st@ =~= pre@.skip(1));
                            }
                            st
                        } else {
                            pre
                        };
                        author = Some(String::from_str(stripped));
                        name_ver = Some(nv);
                    },
                    None => {},
                }
            }
        },
        None => {},
    }
    if name_ver.is_none() {
        match name_ver_exec(s) {
            Some(nv) => {
                name_ver = Some(nv);
            },
            None => {
                let mut err = String::from_str("failed to parse package: ");
                err.append(package.as_str());
                return Err(err);
            },
        }
    }
    let (name, version_text) = match name_ver {
        Some(nv) => nv,
        None => unreached(),
    };
    let version: Option<Semver> = match &version_text {
        Some(vt) => parse_version(vt.as_str()),
        None => None,
    };
    Ok(Package { author, name, version })
}

} // verus!
