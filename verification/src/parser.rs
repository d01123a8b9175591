//! The richer specifier grammar: `[@author/]name[@version]` where the
//! version may carry a leading comparator, a prerelease tag and build
//! metadata, or be partial (`1`, `1.2`).
//!
//! A scoped author here must open with `@` and runs to the first slash;
//! the name holds no `@`; everything after the next `@` is version text.
//! Version text splits into an optional comparator, then either a full
//! `major.minor.patch[-pre][+build]`, a partial `major[.minor[.patch]]`,
//! or free text kept as a bare constraint.

use crate::semver::{all_digits, digits_val, find_char, find_char_in, lemma_find_char, valid_pre};
use vstd::prelude::*;
use vstd::string::*;

verus! {

/// A parsed version: the raw text, the numbers that were present, and
/// the prerelease and build tags.
pub struct PackageVersion {
    pub complete: String,
    pub major: Option<u32>,
    pub minor: Option<u32>,
    pub patch: Option<u32>,
    pub prerelease: Option<String>,
    pub build: Option<String>,
}

/// Mathematical image of a [`PackageVersion`].
pub ghost struct PackageVersionV {
    pub complete: Seq<char>,
    pub major: Option<nat>,
    pub minor: Option<nat>,
    pub patch: Option<nat>,
    pub prerelease: Option<Seq<char>>,
    pub build: Option<Seq<char>>,
}

impl View for PackageVersion {
    type V = PackageVersionV;

    open spec fn view(&self) -> PackageVersionV {
        PackageVersionV {
            complete: self.complete@,
            major: match self.major {
                Some(x) => Some(x as nat),
                None => None,
            },
            minor: match self.minor {
                Some(x) => Some(x as nat),
                None => None,
            },
            patch: match self.patch {
                Some(x) => Some(x as nat),
                None => None,
            },
            prerelease: match self.prerelease {
                Some(p) => Some(p@),
                None => None,
            },
            build: match self.build {
                Some(b) => Some(b@),
                None => None,
            },
        }
    }
}

/// A package specifier: optional author, name, parsed version and the
/// raw constraint text.
pub struct Package {
    pub author: Option<String>,
    pub name: String,
    pub version: Option<PackageVersion>,
    pub version_constraint: Option<String>,
}

/// A comparator opener.
pub open spec fn is_cmp_char(c: char) -> bool {
    c == '~' || c == '^' || c == '>' || c == '<'
}

/// Splits version text into its optional comparator and the rest: a
/// two-character comparator with `=` when at least one character
/// follows, else a one-character comparator when something follows, else
/// none. Empty text does not split.
pub open spec fn spec_constraint_split(s: Seq<char>) -> Option<(Option<Seq<char>>, Seq<char>)> {
    if s.len() == 0 {
        None
    } else if is_cmp_char(s[0]) {
        if s.len() >= 3 && s[1] == '=' {
            Some((Some(s.take(2)), s.skip(2)))
        } else if s.len() >= 2 {
            Some((Some(s.take(1)), s.skip(1)))
        } else {
            Some((None::<Seq<char>>, s))
        }
    } else {
        Some((None::<Seq<char>>, s))
    }
}

/// The full version shape `major.minor.patch[-pre][+build]`, values
/// unbounded: build after the first `+`, prerelease after the first
/// remaining dash, then exactly three digit runs joined by dots.
pub open spec fn spec_full(v: Seq<char>) -> Option<
    (nat, nat, nat, Option<Seq<char>>, Option<Seq<char>>),
> {
    let base = match find_char(v, '+') {
        None => v,
        Some(b) => v.take(b),
    };
    let build = match find_char(v, '+') {
        None => None::<Seq<char>>,
        Some(b) => Some(v.skip(b + 1)),
    };
    if build matches Some(bd) && !valid_pre(bd) {
        None
    } else {
        let main = match find_char(base, '-') {
            None => base,
            Some(d) => base.take(d),
        };
        let pre = match find_char(base, '-') {
            None => None::<Seq<char>>,
            Some(d) => Some(base.skip(d + 1)),
        };
        if pre matches Some(p) && !valid_pre(p) {
            None
        } else {
            match find_char(main, '.') {
                None => None,
                Some(i) => {
                    let a = main.take(i);
                    let rest = main.skip(i + 1);
                    match find_char(rest, '.') {
                        None => None,
                        Some(j) => {
                            let b = rest.take(j);
                            let c = rest.skip(j + 1);
                            if all_digits(a) && all_digits(b) && all_digits(c) {
                                Some((digits_val(a), digits_val(b), digits_val(c), pre, build))
                            } else {
                                None
                            }
                        },
                    }
                },
            }
        }
    }
}

/// The partial version shape `major[.minor[.patch]]`, values unbounded.
pub open spec fn spec_partial(v: Seq<char>) -> Option<(nat, Option<nat>, Option<nat>)> {
    match find_char(v, '.') {
        None => if all_digits(v) {
            Some((digits_val(v), None::<nat>, None::<nat>))
        } else {
            None
        },
        Some(i) => {
            let a = v.take(i);
            let rest = v.skip(i + 1);
            if !all_digits(a) {
                None
            } else {
                match find_char(rest, '.') {
                    None => if all_digits(rest) {
                        Some((digits_val(a), Some(digits_val(rest)), None::<nat>))
                    } else {
                        None
                    },
                    Some(j) => {
                        let b = rest.take(j);
                        let c = rest.skip(j + 1);
                        if all_digits(b) && all_digits(c) {
                            Some((digits_val(a), Some(digits_val(b)), Some(digits_val(c))))
                        } else {
                            None
                        }
                    },
                }
            }
        },
    }
}

/// Whether full-shape values fit `u32` fields.
pub open spec fn full_fits(t: (nat, nat, nat, Option<Seq<char>>, Option<Seq<char>>)) -> bool {
    t.0 <= u32::MAX && t.1 <= u32::MAX && t.2 <= u32::MAX
}

/// Whether partial-shape values fit `u32` fields.
pub open spec fn partial_fits(t: (nat, Option<nat>, Option<nat>)) -> bool {
    t.0 <= u32::MAX && (t.1 matches Some(x) ==> x <= u32::MAX) && (t.2 matches Some(x) ==> x
        <= u32::MAX)
}

fn cmp_char_exec(c: char) -> (r: bool)
    ensures
        r == is_cmp_char(c),
{
    c == '~' || c == '^' || c == '>' || c == '<'
}

fn check_tag(s: &str) -> (r: bool)
    ensures
        r == valid_pre(s@),
{
    crate::semver::check_pre(s)
}

fn parse_u32_checked(s: &str) -> (r: Option<u32>)
    ensures
        r is Some <==> all_digits(s@) && digits_val(s@) <= u32::MAX,
        r is Some ==> r->0 == digits_val(s@),
{
    match crate::semver::parse_u64(s) {
        Some(x) => {
            if x <= 0xffff_ffff {
                Some(x as u32)
            } else {
                None
            }
        },
        None => None,
    }
}

impl Package {
    /// Splits version text and reads its shapes, as the specification
    /// functions name them: a full shape yields all numbers and tags, a
    /// partial one the numbers present, and any other text survives as a
    /// bare constraint. An error names a shape whose numbers overflow,
    /// or empty text.
    #[verifier::rlimit(100)]
    pub fn parse_version(version_str: &str) -> (r: Result<
        (Option<PackageVersion>, Option<String>),
        String,
    >)
        ensures
            match r {
                Ok(t) => spec_constraint_split(version_str@) matches Some(cs) && (match spec_full(
                    cs.1,
                ) {
                    Some(f) => full_fits(f) && (t.0 matches Some(pv) && pv@.complete == cs.1
                        && pv@.major == Some(f.0) && pv@.minor == Some(f.1) && pv@.patch == Some(
                        f.2,
                    ) && pv@.prerelease == f.3 && pv@.build == f.4 && (match t.1 {
                        Some(c) => cs.0 == Some(c@),
                        None => cs.0 is None,
                    })),
                    None => match spec_partial(cs.1) {
                        Some(p) => partial_fits(p) && (t.0 matches Some(pv) && pv@.complete
                            == cs.1 && pv@.major == Some(p.0) && pv@.minor == p.1 && pv@.patch
                            == p.2 && pv@.prerelease is None && pv@.build is None && (match t.1 {
                            Some(c) => cs.0 == Some(c@),
                            None => cs.0 is None,
                        })),
                        None => t.0 is None && (t.1 matches Some(c) && c@ == cs.1),
                    },
                }),
                Err(_) => version_str@.len() == 0 || (match spec_constraint_split(version_str@) {
                    Some(cs) => (spec_full(cs.1) matches Some(f) && !full_fits(f)) || (spec_full(
                        cs.1,
                    ) is None && (spec_partial(cs.1) matches Some(p) && !partial_fits(p))),
                    None => true,
                }),
            },
    {
        let n = version_str.unicode_len();
        if n == 0 {
            return Err(String::from_str("Invalid version format"));
        }
        let (constraint, vtext): (Option<&str>, &str) = if cmp_char_exec(version_str.get_char(0)) {
            if n >= 3 && version_str.get_char(1) == '=' {
                let c = version_str.substring_char(0, 2);
                let v = version_str.substring_char(2, n);
                proof {
                    assert(c@ =~= version_str@.take(2));
                    assert(v@ =~= version_str@.skip(2));
                }
                (Some(c), v)
            } else if n >= 2 {
                let c = version_str.substring_char(0, 1);
                let v = version_str.substring_char(1, n);
                proof {
                    assert(c@ =~= version_str@.take(1));
                    assert(v@ =~= version_str@.skip(1));
                }
                (Some(c), v)
            } else {
                (None, version_str)
            }
        } else {
            (None, version_str)
        };
        let vn = vtext.unicode_len();
        // Full shape: strip build, then prerelease, then the triple.
        let mut full_ok = true;
        let plus = find_char_in(vtext, '+');
        proof {
            lemma_find_char(vtext@, '+');
        }
        let base: &str = match plus {
            Some(b) => vtext.substring_char(0, b),
            None => vtext,
        };
        let build_txt: Option<&str> = match plus {
            Some(b) => Some(vtext.substring_char(b + 1, vn)),
            None => None,
        };
        proof {
            if let Some(b) = find_char(vtext@, '+') {
                assert(base@ =~= vtext@.take(b));
                assert(build_txt->0@ =~= vtext@.skip(b + 1));
            }
        }
        if let Some(bd) = build_txt {
            if !check_tag(bd) {
                full_ok = false;
            }
        }
        let bn = base.unicode_len();
        let dash = find_char_in(base, '-');
        proof {
            lemma_find_char(base@, '-');
        }
        let main: &str = match dash {
            Some(d) => base.substring_char(0, d),
            None => base,
        };
        let pre_txt: Option<&str> = match dash {
            Some(d) => Some(base.substring_char(d + 1, bn)),
            None => None,
        };
        proof {
            if let Some(d) = find_char(base@, '-') {
                assert(main@ =~= base@.take(d));
                assert(pre_txt->0@ =~= base@.skip(d + 1));
            }
        }
        if full_ok {
            if let Some(p) = pre_txt {
                if !check_tag(p) {
                    full_ok = false;
                }
            }
        }
        if full_ok {
            let mn = main.unicode_len();
            if let Some(i) = find_char_in(main, '.') {
                proof {
                    lemma_find_char(main@, '.');
                }
                let a = main.substring_char(0, i);
                let rest = main.substring_char(i + 1, mn);
                proof {
                    assert(a@ =~= main@.take(i as int));
                    assert(rest@ =~= main@.skip(i as int + 1));
                }
                let rn = rest.unicode_len();
                if let Some(j) = find_char_in(rest, '.') {
                    proof {
                        lemma_find_char(rest@, '.');
                    }
                    let b = rest.substring_char(0, j);
                    let c = rest.substring_char(j + 1, rn);
                    proof {
                        assert(b@ =~= rest@.take(j as int));
                        assert(c@ =~= rest@.skip(j as int + 1));
                    }
                    if all_digits_exec(a) && all_digits_exec(b) && all_digits_exec(c) {
                        let major = match parse_u32_checked(a) {
                            Some(x) => x,
                            None => {
                                return Err(String::from_str("Invalid version format"));
                            },
                        };
                        let minor = match parse_u32_checked(b) {
                            Some(x) => x,
                            None => {
                                return Err(String::from_str("Invalid version format"));
                            },
                        };
                        let patch = match parse_u32_checked(c) {
                            Some(x) => x,
                            None => {
                                return Err(String::from_str("Invalid version format"));
                            },
                        };
                        let pv = PackageVersion {
                            complete: String::from_str(vtext),
                            major: Some(major),
                            minor: Some(minor),
                            patch: Some(patch),
                            prerelease: match pre_txt {
                                Some(p) => Some(String::from_str(p)),
                                None => None,
                            },
                            build: match build_txt {
                                Some(b) => Some(String::from_str(b)),
                                None => None,
                            },
                        };
                        let cons: Option<String> = match constraint {
                            Some(c) => Some(String::from_str(c)),
                            None => None,
                        };
                        return Ok((Some(pv), cons));
                    }
                }
            }
        }
        proof {
            assert(spec_full(vtext@) is None || !full_fits(spec_full(vtext@)->0));
        }
        // Partial shape over the whole version text.
        if partial_matches(vtext) {
            let pn = vtext.unicode_len();
            match find_char_in(vtext, '.') {
                None => {
                    let major = match parse_u32_checked(vtext) {
                        Some(x) => x,
                        None => {
                            return Err(String::from_str("Invalid version format"));
                        },
                    };
                    let pv = PackageVersion {
                        complete: String::from_str(vtext),
                        major: Some(major),
                        minor: None,
                        patch: None,
                        prerelease: None,
                        build: None,
                    };
                    let cons: Option<String> = match constraint {
                        Some(c) => Some(String::from_str(c)),
                        None => None,
                    };
                    return Ok((Some(pv), cons));
                },
                Some(i) => {
                    proof {
                        lemma_find_char(vtext@, '.');
                    }
                    let a = vtext.substring_char(0, i);
                    let rest = vtext.substring_char(i + 1, pn);
                    proof {
                        assert(a@ =~= vtext@.take(i as int));
                        assert(rest@ =~= vtext@.skip(i as int + 1));
                    }
                    let rn = rest.unicode_len();
                    match find_char_in(rest, '.') {
                        None => {
                            let major = match parse_u32_checked(a) {
                                Some(x) => x,
                                None => {
                                    return Err(String::from_str("Invalid version format"));
                                },
                            };
                            let minor = match parse_u32_checked(rest) {
                                Some(x) => x,
                                None => {
                                    return Err(String::from_str("Invalid version format"));
                                },
                            };
                            let pv = PackageVersion {
                                complete: String::from_str(vtext),
                                major: Some(major),
                                minor: Some(minor),
                                patch: None,
                                prerelease: None,
                                build: None,
                            };
                            let cons: Option<String> = match constraint {
                                Some(c) => Some(String::from_str(c)),
                                None => None,
                            };
                            return Ok((Some(pv), cons));
                        },
                        Some(j) => {
                            proof {
                                lemma_find_char(rest@, '.');
                            }
                            let b = rest.substring_char(0, j);
                            let c = rest.substring_char(j + 1, rn);
                            proof {
                                assert(b@ =~= rest@.take(j as int));
                                assert(c@ =~= rest@.skip(j as int + 1));
                            }
                            let major = match parse_u32_checked(a) {
                                Some(x) => x,
                                None => {
                                    return Err(String::from_str("Invalid version format"));
                                },
                            };
                            let minor = match parse_u32_checked(b) {
                                Some(x) => x,
                                None => {
                                    return Err(String::from_str("Invalid version format"));
                                },
                            };
                            let patch = match parse_u32_checked(c) {
                                Some(x) => x,
                                None => {
                                    return Err(String::from_str("Invalid version format"));
                                },
                            };
                            let pv = PackageVersion {
                                complete: String::from_str(vtext),
                                major: Some(major),
                                minor: Some(minor),
                                patch: Some(patch),
                                prerelease: None,
                                build: None,
                            };
                            let cons: Option<String> = match constraint {
                                Some(c) => Some(String::from_str(c)),
                                None => None,
                            };
                            return Ok((Some(pv), cons));
                        },
                    }
                },
            }
        }
        let cons = Some(String::from_str(vtext));
        Ok((None, cons))
    }
}

/// Whether the partial shape matches, values unbounded.
fn partial_matches(v: &str) -> (r: bool)
    ensures
        r == (spec_partial(v@) is Some),
{
    let n = v.unicode_len();
    match find_char_in(v, '.') {
        None => all_digits_exec(v),
        Some(i) => {
            proof {
                lemma_find_char(v@, '.');
            }
            let a = v.substring_char(0, i);
            let rest = v.substring_char(i + 1, n);
            proof {
                assert(a@ =~= v@.take(i as int));
                assert(rest@ =~= v@.skip(i as int + 1));
            }
            if !all_digits_exec(a) {
                return false;
            }
            let rn = rest.unicode_len();
            match find_char_in(rest, '.') {
                None => all_digits_exec(rest),
                Some(j) => {
                    proof {
                        lemma_find_char(rest@, '.');
                    }
                    let b = rest.substring_char(0, j);
                    let c = rest.substring_char(j + 1, rn);
                    proof {
                        assert(b@ =~= rest@.take(j as int));
                        assert(c@ =~= rest@.skip(j as int + 1));
                    }
                    all_digits_exec(b) && all_digits_exec(c)
                },
            }
        },
    }
}

fn all_digits_exec(s: &str) -> (r: bool)
    ensures
        r == all_digits(s@),
{
    let n = s.unicode_len();
    if n == 0 {
        return false;
    }
    let mut i: usize = 0;
    while i < n
        invariant
            0 <= i <= n,
            n == s@.len(),
            forall|k: int| 0 <= k < i ==> crate::semver::is_digit(#[trigger] s@[k]),
        decreases n - i,
    {
        let c = s.get_char(i);
        if !('0' <= c && c <= '9') {
            return false;
        }
        i = i + 1;
    }
    true
}

/// The name and optional version: the name before the first `@` must be
/// non-empty; anything non-empty after it is version text.
pub open spec fn spec_name_ver2(rest: Seq<char>) -> Option<(Seq<char>, Option<Seq<char>>)> {
    match find_char(rest, '@') {
        None => if rest.len() > 0 {
            Some((rest, None::<Seq<char>>))
        } else {
            None
        },
        Some(q) => {
            let name = rest.take(q);
            let ver = rest.skip(q + 1);
            if name.len() > 0 && ver.len() > 0 {
                Some((name, Some(ver)))
            } else {
                None
            }
        },
    }
}

/// The scoped grammar: text opening with `@` must carry `@author/` up to
/// the first slash, the author non-empty; any other text is name and
/// version alone.
pub open spec fn spec_parse_scoped(s: Seq<char>) -> Option<
    (Option<Seq<char>>, Seq<char>, Option<Seq<char>>),
> {
    if s.len() > 0 && s[0] == '@' {
        match find_char(s, '/') {
            Some(p) => {
                if p >= 2 {
                    match spec_name_ver2(s.skip(p + 1)) {
                        Some(nv) => Some((Some(s.subrange(1, p)), nv.0, nv.1)),
                        None => None,
                    }
                } else {
                    None
                }
            },
            None => None,
        }
    } else {
        match spec_name_ver2(s) {
            Some(nv) => Some((None::<Seq<char>>, nv.0, nv.1)),
            None => None,
        }
    }
}

/// What a successful version read leaves in the two fields.
pub open spec fn version_ok(vt: Seq<char>, v0: Option<PackageVersion>, v1: Option<String>) -> bool {
    match spec_constraint_split(vt) {
        None => false,
        Some(cs) => match spec_full(cs.1) {
            Some(f) => full_fits(f) && (v0 matches Some(pv) && pv@.complete == cs.1 && pv@.major
                == Some(f.0) && pv@.minor == Some(f.1) && pv@.patch == Some(f.2) && pv@.prerelease
                == f.3 && pv@.build == f.4 && (match v1 {
                Some(c) => cs.0 == Some(c@),
                None => cs.0 is None,
            })),
            None => match spec_partial(cs.1) {
                Some(p) => partial_fits(p) && (v0 matches Some(pv) && pv@.complete == cs.1
                    && pv@.major == Some(p.0) && pv@.minor == p.1 && pv@.patch == p.2
                    && pv@.prerelease is None && pv@.build is None && (match v1 {
                    Some(c) => cs.0 == Some(c@),
                    None => cs.0 is None,
                })),
                None => v0 is None && (v1 matches Some(c) && c@ == cs.1),
            },
        },
    }
}

/// When a version read fails: empty text, or a recognised shape whose
/// numbers overflow the fields.
pub open spec fn version_err(vt: Seq<char>) -> bool {
    vt.len() == 0 || (match spec_constraint_split(vt) {
        Some(cs) => (spec_full(cs.1) matches Some(f) && !full_fits(f)) || (spec_full(cs.1) is None
            && (spec_partial(cs.1) matches Some(p) && !partial_fits(p))),
        None => true,
    })
}

fn name_ver2_exec(rest: &str) -> (r: Option<(String, Option<String>)>)
    ensures
        match r {
            Some(nv) => spec_name_ver2(rest@) matches Some(t) && nv.0@ == t.0 && (match nv.1 {
                Some(v) => t.1 == Some(v@),
                None => t.1 is None,
            }),
            None => spec_name_ver2(rest@) is None,
        },
{
    let n = rest.unicode_len();
    match find_char_in(rest, '@') {
        None => {
            if n > 0 {
                Some((String::from_str(rest), None))
            } else {
                None
            }
        },
        Some(q) => {
            proof {
                lemma_find_char(rest@, '@');
            }
            let name = rest.substring_char(0, q);
            let ver = rest.substring_char(q + 1, n);
            proof {
                assert(name@ =~= rest@.take(q as int));
                assert(ver@ =~= rest@.skip(q as int + 1));
            }
            if name.unicode_len() == 0 || ver.unicode_len() == 0 {
                return None;
            }
            Some((String::from_str(name), Some(String::from_str(ver))))
        },
    }
}

impl Package {
    /// Parses `[@author/]name[@version]`, as `spec_parse_scoped` names
    /// it, then reads the version text. Errors name a specifier outside
    /// the grammar or a version whose numbers overflow.
    pub fn parse(package_str: &str) -> (r: Result<Package, String>)
        ensures
            match r {
                Ok(p) => spec_parse_scoped(package_str@) matches Some(t) && (match p.author {
                    Some(a) => t.0 == Some(a@),
                    None => t.0 is None,
                }) && p.name@ == t.1 && (match t.2 {
                    Some(vt) => version_ok(vt, p.version, p.version_constraint),
                    None => p.version is None && p.version_constraint is None,
                }),
                Err(_) => spec_parse_scoped(package_str@) is None || (spec_parse_scoped(
                    package_str@,
                ) matches Some(t) && (t.2 matches Some(vt) && version_err(vt))),
            },
    {
        let s = package_str;
        let n = s.unicode_len();
        let author: Option<String>;
        let nv: (String, Option<String>);
        if n > 0 && s.get_char(0) == '@' {
            match find_char_in(s, '/') {
                Some(p) => {
                    proof {
                        lemma_find_char(s@, '/');
                    }
                    if p >= 2 {
                        let a = s.substring_char(1, p);
                        let tail = s.substring_char(p + 1, n);
                        proof {
                            assert(a@ =~= s@.subrange(1, p as int));
                            assert(tail@ =~= s@.skip(p as int + 1));
                        }
                        match name_ver2_exec(tail) {
                            Some(x) => {
                                author = Some(String::from_str(a));
                                nv = x;
                            },
                            None => {
                                return Err(String::from_str("Invalid package format"));
                            },
                        }
                    } else {
                        return Err(String::from_str("Invalid package format"));
                    }
                },
                None => {
                    return Err(String::from_str("Invalid package format"));
                },
            }
        } else {
            match name_ver2_exec(s) {
                Some(x) => {
                    author = None;
                    nv = x;
                },
                None => {
                    return Err(String::from_str("Invalid package format"));
                },
            }
        }
        let (name, version_text) = nv;
        match version_text {
            Some(vt) => {
                match Package::parse_version(vt.as_str()) {
                    Ok(t) => Ok(
                        Package { author, name, version: t.0, version_constraint: t.1 },
                    ),
                    Err(e) => Err(e),
                }
            },
            None => Ok(Package { author, name, version: None, version_constraint: None }),
        }
    }
}

} // verus!
