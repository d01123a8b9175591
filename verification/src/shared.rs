//! The plain request shapes older call sites use: a package with an
//! optional author and version, and a version with an optional leading
//! comparator run.
//!
//! The version grammar here is `[<>=^~]*major.minor.patch`: any run of
//! comparator characters, then exactly three digit runs joined by dots.

use crate::semver::{all_digits, digits_val, find_char, find_char_in, lemma_find_char, parse_u64};
use vstd::prelude::*;
use vstd::string::*;

verus! {

/// A package named by an optional author, a name, and an optional
/// version.
pub struct Package {
    pub author: Option<String>,
    pub name: String,
    pub version: Option<Semver>,
}

/// A version with the comparator run it was written with and its raw
/// text.
pub struct Semver {
    pub operator: Option<String>,
    pub major: u32,
    pub minor: u32,
    pub patch: u32,
    pub complete: String,
}

/// Mathematical image of a [`Semver`].
pub ghost struct SemverV {
    pub operator: Option<Seq<char>>,
    pub major: nat,
    pub minor: nat,
    pub patch: nat,
    pub complete: Seq<char>,
}

impl View for Semver {
    type V = SemverV;

    open spec fn view(&self) -> SemverV {
        SemverV {
            operator: match self.operator {
                Some(o) => Some(o@),
                None => None,
            },
            major: self.major as nat,
            minor: self.minor as nat,
            patch: self.patch as nat,
            complete: self.complete@,
        }
    }
}

/// A comparator character.
pub open spec fn is_op_char(c: char) -> bool {
    c == '<' || c == '>' || c == '=' || c == '^' || c == '~'
}

/// Length of the leading comparator run.
pub open spec fn op_len(s: Seq<char>) -> int
    decreases s.len(),
{
    if s.len() > 0 && is_op_char(s.first()) {
        1 + op_len(s.drop_first())
    } else {
        0
    }
}

/// The comparator-version grammar: a comparator run, then exactly three
/// digit runs joined by dots, each fitting a `u32`.
pub open spec fn spec_parse_op_version(s: Seq<char>) -> Option<(Seq<char>, nat, nat, nat)> {
    let k = op_len(s);
    let rest = s.skip(k);
    match find_char(rest, '.') {
        None => None,
        Some(i) => {
            let a = rest.take(i);
            let r2 = rest.skip(i + 1);
            match find_char(r2, '.') {
                None => None,
                Some(j) => {
                    let b = r2.take(j);
                    let c = r2.skip(j + 1);
                    if all_digits(a) && digits_val(a) <= u32::MAX && all_digits(b) && digits_val(b)
                        <= u32::MAX && all_digits(c) && digits_val(c) <= u32::MAX {
                        Some((s.take(k), digits_val(a), digits_val(b), digits_val(c)))
                    } else {
                        None
                    }
                },
            }
        },
    }
}

fn parse_u32(s: &str) -> (r: Option<u32>)
    ensures
        r is Some <==> all_digits(s@) && digits_val(s@) <= u32::MAX,
        r is Some ==> r->0 == digits_val(s@),
{
    match parse_u64(s) {
        Some(x) => {
            if x <= 0xffff_ffff {
                Some(x as u32)
            } else {
                None
            }
        },
        None => None,
    }
}

impl Semver {
    /// Parses the comparator-version grammar, as `spec_parse_op_version`
    /// names it: the comparator run is kept, possibly empty, and the raw
    /// text is retained whole.
    pub fn parse_str(s: &str) -> (r: Result<Semver, ()>)
        ensures
            match r {
                Ok(v) => spec_parse_op_version(s@) matches Some(t) && v@.operator == Some(t.0)
                    && v@.major == t.1 && v@.minor == t.2 && v@.patch == t.3 && v@.complete == s@,
                Err(_) => spec_parse_op_version(s@) is None,
            },
    {
        let n = s.unicode_len();
        let mut k: usize = 0;
        while k < n && is_op_char_exec(s.get_char(k))
            invariant
                0 <= k <= n,
                n == s@.len(),
                forall|t: int| 0 <= t < k ==> is_op_char(#[trigger] s@[t]),
            decreases n - k,
        {
            k = k + 1;
        }
        proof {
            lemma_op_len_at(s@, k as int);
        }
        let op = s.substring_char(0, k);
        let rest = s.substring_char(k, n);
        proof {
            assert(op@ =~= s@.take(k as int));
            assert(rest@ =~= s@.skip(k as int));
        }
        let rl = rest.unicode_len();
        let i = match find_char_in(rest, '.') {
            Some(i) => i,
            None => {
                return Err(());
            },
        };
        proof {
            lemma_find_char(rest@, '.');
        }
        let a = rest.substring_char(0, i);
        let r2 = rest.substring_char(i + 1, rl);
        proof {
            assert(a@ =~= rest@.take(i as int));
            assert(r2@ =~= rest@.skip(i as int + 1));
        }
        let j = match find_char_in(r2, '.') {
            Some(j) => j,
            None => {
                return Err(());
            },
        };
        proof {
            lemma_find_char(r2@, '.');
        }
        let r2l = r2.unicode_len();
        let b = r2.substring_char(0, j);
        let c = r2.substring_char(j + 1, r2l);
        proof {
            assert(b@ =~= r2@.take(j as int));
            assert(c@ =~= r2@.skip(j as int + 1));
        }
        let major = match parse_u32(a) {
            Some(x) => x,
            None => {
                return Err(());
            },
        };
        let minor = match parse_u32(b) {
            Some(x) => x,
            None => {
                return Err(());
            },
        };
        let patch = match parse_u32(c) {
            Some(x) => x,
            None => {
                return Err(());
            },
        };
        Ok(
            Semver {
                operator: Some(String::from_str(op)),
                major,
                minor,
                patch,
                complete: String::from_str(s),
            },
        )
    }
}

impl core::str::FromStr for Semver {
    type Err = ();

    fn from_str(s: &str) -> Result<Semver, ()> {
        Semver::parse_str(s)
    }
}

fn is_op_char_exec(c: char) -> (r: bool)
    ensures
        r == is_op_char(c),
{
    c == '<' || c == '>' || c == '=' || c == '^' || c == '~'
}

/// A scan that stopped at the first other character measured the
/// comparator run.
proof fn lemma_op_len_at(s: Seq<char>, k: int)
    requires
        0 <= k <= s.len(),
        forall|t: int| 0 <= t < k ==> is_op_char(#[trigger] s[t]),
        k < s.len() ==> !is_op_char(s[k]),
    ensures
        op_len(s) == k,
    decreases s.len(),
{
    if s.len() > 0 && is_op_char(s.first()) {
        assert(k > 0) by {
            if k == 0 {
                assert(!is_op_char(s[0]));
            }
        }
        assert(forall|t: int| 0 <= t < k - 1 ==> #[trigger] s.drop_first()[t] == s[t + 1]);
        lemma_op_len_at(s.drop_first(), k - 1);
    } else {
        assert(k == 0) by {
            if k > 0 {
                assert(is_op_char(s[0]));
            }
        }
    }
}

} // verus!
