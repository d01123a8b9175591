//! Strict semantic versions and range evaluation.
//!
//! A version is `major.minor.patch` with an optional prerelease tag after a
//! dash; versions are totally ordered, a release outranking any prerelease of
//! the same triple. Ranges are the primitives `^`, `~`, `>`, `>=`, `<`, `<=`,
//! an exact version, and the wildcards `*` and `latest`; composites join
//! primitives with `||`. Prerelease versions satisfy a composite only when the
//! composite itself mentions a dash.

use vstd::prelude::*;
use vstd::string::*;

verus! {

/// A parsed semantic version: numeric triple plus optional prerelease tag.
#[derive(Debug)]
pub struct SemVer {
    pub major: u64,
    pub minor: u64,
    pub patch: u64,
    pub pre: Option<String>,
}

/// Mathematical image of a [`SemVer`]: the triple and the prerelease tag's
/// characters.
pub ghost struct VersionV {
    pub major: nat,
    pub minor: nat,
    pub patch: nat,
    pub pre: Option<Seq<char>>,
}

impl View for SemVer {
    type V = VersionV;

    open spec fn view(&self) -> VersionV {
        VersionV {
            major: self.major as nat,
            minor: self.minor as nat,
            patch: self.patch as nat,
            pre: match self.pre {
                Some(p) => Some(p@),
                None => None,
            },
        }
    }
}

/// True when `c` is an ASCII decimal digit.
pub open spec fn is_digit(c: char) -> bool {
    '0' <= c && c <= '9'
}

/// Numeric value of an ASCII digit.
pub open spec fn digit_val(c: char) -> nat
    recommends
        is_digit(c),
{
    ((c as int) - ('0' as int)) as nat
}

/// True when `s` is a non-empty run of ASCII digits.
pub open spec fn all_digits(s: Seq<char>) -> bool {
    s.len() > 0 && forall|i: int| 0 <= i < s.len() ==> is_digit(#[trigger] s[i])
}

/// Value of a digit string read as a decimal number.
pub open spec fn digits_val(s: Seq<char>) -> nat
    decreases s.len(),
{
    if s.len() == 0 {
        0
    } else {
        digits_val(s.drop_last()) * 10 + digit_val(s.last())
    }
}

/// Index of the first occurrence of `c` in `s`, if any.
pub open spec fn find_char(s: Seq<char>, c: char) -> Option<int>
    decreases s.len(),
{
    if s.len() == 0 {
        None
    } else if s.first() == c {
        Some(0)
    } else {
        match find_char(s.drop_first(), c) {
            None => None,
            Some(i) => Some(i + 1),
        }
    }
}

/// What `find_char` returns: the first index holding `c`, or a guarantee
/// that no index does.
pub proof fn lemma_find_char(s: Seq<char>, c: char)
    ensures
        match find_char(s, c) {
            Some(i) => 0 <= i < s.len() && s[i] == c && forall|k: int| 0 <= k < i ==> s[k] != c,
            None => forall|k: int| 0 <= k < s.len() ==> s[k] != c,
        },
    decreases s.len(),
{
    if s.len() > 0 && s.first() != c {
        lemma_find_char(s.drop_first(), c);
        assert forall|k: int| 0 <= k < s.len() implies (s.drop_first()[k - 1] == s[k] || k == 0) by {}
    }
}

/// A scan that stopped at the first hit computed `find_char`.
pub proof fn lemma_find_char_at(s: Seq<char>, c: char, i: int)
    requires
        0 <= i < s.len(),
        s[i] == c,
        forall|k: int| 0 <= k < i ==> s[k] != c,
    ensures
        find_char(s, c) == Some(i),
{
    lemma_find_char(s, c);
    match find_char(s, c) {
        Some(j) => {
            if j < i {
                assert(s[j] == c);
            } else if i < j {
                assert(s[i] != c);
            }
        },
        None => {
            assert(s[i] != c);
        },
    }
}

/// Extending a digit string by one digit multiplies its value by ten and
/// adds the digit.
pub proof fn lemma_digits_val_take_succ(s: Seq<char>, k: int)
    requires
        0 <= k < s.len(),
    ensures
        digits_val(s.take(k + 1)) == digits_val(s.take(k)) * 10 + digit_val(s[k]),
{
    assert(s.take(k + 1).drop_last() =~= s.take(k));
    assert(s.take(k + 1).last() == s[k]);
}

/// A longer digit prefix never has a smaller value.
pub proof fn lemma_digits_val_mono(s: Seq<char>, i: int, j: int)
    requires
        0 <= i <= j <= s.len(),
    ensures
        digits_val(s.take(i)) <= digits_val(s.take(j)),
    decreases j - i,
{
    if i < j {
        lemma_digits_val_mono(s, i, j - 1);
        lemma_digits_val_take_succ(s, j - 1);
    }
}

fn digit_of(c: char) -> (r: Option<u8>)
    ensures
        r is Some <==> is_digit(c),
        r is Some ==> r->0 == digit_val(c),
{
    if '0' <= c && c <= '9' {
        Some((c as u8) - 48)
    } else {
        None
    }
}

/// True when `c` may appear in a prerelease tag: ASCII letters, digits,
/// dots and dashes.
pub open spec fn is_pre_char(c: char) -> bool {
    is_digit(c) || ('A' <= c && c <= 'Z') || ('a' <= c && c <= 'z') || c == '.' || c == '-'
}

/// True when `s` is a non-empty prerelease tag.
pub open spec fn valid_pre(s: Seq<char>) -> bool {
    s.len() > 0 && forall|i: int| 0 <= i < s.len() ==> is_pre_char(#[trigger] s[i])
}

/// True when `s` is a digit run whose value fits a `u64`.
pub open spec fn valid_num(s: Seq<char>) -> bool {
    all_digits(s) && digits_val(s) <= u64::MAX
}

/// The strict version grammar: `major.minor.patch`, optionally `-pre`.
/// The text before the first dash must be exactly three digit runs joined
/// by dots, each fitting a `u64`; the text after the dash, when present,
/// must be a non-empty tag of letters, digits, dots and dashes.
pub open spec fn spec_parse_version(s: Seq<char>) -> Option<VersionV> {
    let main = match find_char(s, '-') {
        None => s,
        Some(d) => s.take(d),
    };
    let pre = match find_char(s, '-') {
        None => None::<Seq<char>>,
        Some(d) => Some(s.skip(d + 1)),
    };
    if pre matches Some(p) && !valid_pre(p) {
        None
    } else {
        match find_char(main, '.') {
            None => None,
            Some(i) => {
                let a = main.take(i);
                let rest = main.skip(i + 1);
                match find_char(rest, '.') {
                    None => None,
                    Some(j) => {
                        let b = rest.take(j);
                        let c = rest.skip(j + 1);
                        if valid_num(a) && valid_num(b) && valid_num(c) {
                            Some(
                                VersionV {
                                    major: digits_val(a),
                                    minor: digits_val(b),
                                    patch: digits_val(c),
                                    pre,
                                },
                            )
                        } else {
                            None
                        }
                    },
                }
            },
        }
    }
}

/// Version text must open with a digit: anything else fails to parse.
pub proof fn lemma_parse_none_bad_start(s: Seq<char>)
    requires
        s.len() == 0 || !is_digit(s[0]),
    ensures
        spec_parse_version(s) is None,
{
    if s.len() == 0 {
        assert(find_char(s, '-') is None);
        assert(find_char(s, '.') is None);
    } else {
        lemma_find_char(s, '-');
        let main = match find_char(s, '-') {
            None => s,
            Some(d) => s.take(d),
        };
        if main.len() == 0 {
            assert(find_char(main, '.') is None);
        } else {
            assert(main[0] == s[0]);
            lemma_find_char(main, '.');
            match find_char(main, '.') {
                None => (),
                Some(i) => {
                    let a = main.take(i);
                    if i == 0 {
                        assert(!all_digits(a));
                    } else {
                        assert(a[0] == s[0]);
                        assert(!all_digits(a));
                    }
                },
            }
        }
    }
}

/// Index of the first occurrence of `c`, as `find_char` names it.
pub fn find_char_in(s: &str, c: char) -> (r: Option<usize>)
    ensures
        match r {
            Some(i) => find_char(s@, c) == Some(i as int),
            None => find_char(s@, c) is None,
        },
{
    let n = s.unicode_len();
    let mut i: usize = 0;
    while i < n
        invariant
            0 <= i <= n,
            n == s@.len(),
            forall|k: int| 0 <= k < i ==> s@[k] != c,
        decreases n - i,
    {
        if s.get_char(i) == c {
            proof {
                lemma_find_char_at(s@, c, i as int);
            }
            return Some(i);
        }
        i = i + 1;
    }
    proof {
        lemma_find_char(s@, c);
    }
    None
}

fn pre_char_ok(c: char) -> (r: bool)
    ensures
        r == is_pre_char(c),
{
    ('0' <= c && c <= '9') || ('A' <= c && c <= 'Z') || ('a' <= c && c <= 'z') || c == '.' || c
        == '-'
}

pub(crate) fn check_pre(s: &str) -> (r: bool)
    ensures
        r == valid_pre(s@),
{
    let n = s.unicode_len();
    if n == 0 {
        return false;
    }
    let mut i: usize = 0;
    while i < n
        invariant
            0 <= i <= n,
            n == s@.len(),
            forall|k: int| 0 <= k < i ==> is_pre_char(#[trigger] s@[k]),
        decreases n - i,
    {
        if !pre_char_ok(s.get_char(i)) {
            return false;
        }
        i = i + 1;
    }
    true
}

impl SemVer {
    /// Parses a strict `major.minor.patch[-pre]` version; `None` exactly on
    /// text outside the grammar of `spec_parse_version`.
    pub fn parse(s: &str) -> (r: Option<SemVer>)
        ensures
            match r {
                Some(v) => spec_parse_version(s@) == Some(v@),
                None => spec_parse_version(s@) is None,
            },
    {
        let n = s.unicode_len();
        let dash = find_char_in(s, '-');
        proof {
            lemma_find_char(s@, '-');
        }
        let main: &str = match dash {
            Some(d) => s.substring_char(0, d),
            None => s,
        };
        proof {
            if let Some(d) = find_char(s@, '-') {
                lemma_find_char(s@, '-');
                assert(main@ =~= s@.take(d));
            }
        }
        let pre: Option<&str> = match dash {
            Some(d) => {
                proof {
                    lemma_find_char(s@, '-');
                }
                Some(s.substring_char(d + 1, n))
            },
            None => None,
        };
        if let Some(p) = pre {
            proof {
                if let Some(d) = find_char(s@, '-') {
                    assert(p@ =~= s@.skip(d + 1));
                }
            }
            if !check_pre(p) {
                return None;
            }
        }
        let m = main.unicode_len();
        let i = match find_char_in(main, '.') {
            Some(i) => i,
            None => {
                return None;
            },
        };
        proof {
            lemma_find_char(main@, '.');
        }
        let a = main.substring_char(0, i);
        let rest = main.substring_char(i + 1, m);
        proof {
            assert(a@ =~= main@.take(i as int));
            assert(rest@ =~= main@.skip(i + 1));
        }
        let j = match find_char_in(rest, '.') {
            Some(j) => j,
            None => {
                return None;
            },
        };
        proof {
            lemma_find_char(rest@, '.');
        }
        let rl = rest.unicode_len();
        let b = rest.substring_char(0, j);
        let c = rest.substring_char(j + 1, rl);
        proof {
            assert(b@ =~= rest@.take(j as int));
            assert(c@ =~= rest@.skip(j + 1));
        }
        let major = match parse_u64(a) {
            Some(x) => x,
            None => {
                return None;
            },
        };
        let minor = match parse_u64(b) {
            Some(x) => x,
            None => {
                return None;
            },
        };
        let patch = match parse_u64(c) {
            Some(x) => x,
            None => {
                return None;
            },
        };
        let pre_owned: Option<String> = match pre {
            Some(p) => Some(String::from_str(p)),
            None => None,
        };
        Some(SemVer { major, minor, patch, pre: pre_owned })
    }
}

/// Reads a whole string as a decimal `u64`; `None` on a character that is no
/// digit, on emptiness, and on overflow.
pub fn parse_u64(s: &str) -> (r: Option<u64>)
    ensures
        r is Some <==> all_digits(s@) && digits_val(s@) <= u64::MAX,
        r is Some ==> r->0 == digits_val(s@),
{
    let n = s.unicode_len();
    if n == 0 {
        return None;
    }
    let mut acc: u64 = 0;
    let mut i: usize = 0;
    while i < n
        invariant
            0 <= i <= n,
            n == s@.len(),
            forall|k: int| 0 <= k < i ==> is_digit(#[trigger] s@[k]),
            acc == digits_val(s@.take(i as int)),
        decreases n - i,
    {
        let c = s.get_char(i);
        match digit_of(c) {
            None => {
                return None;
            },
            Some(d) => {
                let dd = d as u64;
                proof {
                    lemma_digits_val_take_succ(s@, i as int);
                }
                match acc.checked_mul(10) {
                    None => {
                        proof {
                            lemma_digits_val_mono(s@, i as int + 1, s@.len() as int);
                            assert(s@.take(s@.len() as int) =~= s@);
                        }
                        return None;
                    },
                    Some(p) => {
                        match p.checked_add(dd) {
                            None => {
                                proof {
                                    lemma_digits_val_mono(s@, i as int + 1, s@.len() as int);
                                    assert(s@.take(s@.len() as int) =~= s@);
                                }
                                return None;
                            },
                            Some(v) => {
                                acc = v;
                            },
                        }
                    },
                }
            },
        }
        i = i + 1;
    }
    proof {
        assert(s@.take(n as int) =~= s@);
    }
    Some(acc)
}

/// Strict lexicographic order on character sequences, by code point, the
/// shorter sequence first when one is a prefix of the other.
pub open spec fn lex_lt(a: Seq<char>, b: Seq<char>) -> bool
    decreases a.len(),
{
    if b.len() == 0 {
        false
    } else if a.len() == 0 {
        true
    } else if a.first() < b.first() {
        true
    } else if b.first() < a.first() {
        false
    } else {
        lex_lt(a.drop_first(), b.drop_first())
    }
}

/// Order on prerelease tags: any tag sorts below no tag; two tags sort
/// lexicographically.
pub open spec fn pre_lt(a: Option<Seq<char>>, b: Option<Seq<char>>) -> bool {
    match (a, b) {
        (Some(x), None) => true,
        (Some(x), Some(y)) => lex_lt(x, y),
        _ => false,
    }
}

/// Equality of version models.
pub open spec fn ver_eq(a: VersionV, b: VersionV) -> bool {
    a.major == b.major && a.minor == b.minor && a.patch == b.patch && a.pre == b.pre
}

/// The total order on versions: lexicographic on the numeric triple, then
/// release above prerelease, then lexicographic on tags.
pub open spec fn ver_lt(a: VersionV, b: VersionV) -> bool {
    if a.major != b.major {
        a.major < b.major
    } else if a.minor != b.minor {
        a.minor < b.minor
    } else if a.patch != b.patch {
        a.patch < b.patch
    } else {
        pre_lt(a.pre, b.pre)
    }
}

pub open spec fn ver_le(a: VersionV, b: VersionV) -> bool {
    ver_lt(a, b) || ver_eq(a, b)
}

/// `lex_lt` is a strict total order: of `a < b`, `b < a` and `a == b`,
/// exactly one holds.
pub proof fn lemma_lex_lt_total(a: Seq<char>, b: Seq<char>)
    ensures
        lex_lt(a, b) ==> !lex_lt(b, a) && a != b,
        !lex_lt(a, b) && !lex_lt(b, a) ==> a == b,
    decreases a.len(),
{
    if a.len() > 0 && b.len() > 0 && a.first() == b.first() {
        lemma_lex_lt_total(a.drop_first(), b.drop_first());
        if !lex_lt(a, b) && !lex_lt(b, a) {
            assert(a.drop_first() == b.drop_first());
            assert forall|i: int| 0 <= i < a.len() implies a[i] == b[i] by {
                if i > 0 {
                    assert(a[i] == a.drop_first()[i - 1]);
                    assert(b[i] == b.drop_first()[i - 1]);
                }
            }
            assert(a =~= b);
        }
        if lex_lt(a, b) {
            assert(a.drop_first() != b.drop_first());
            assert(a != b);
        }
    } else if a.len() > 0 && b.len() > 0 {
        assert(a.first() != b.first());
        if !lex_lt(a, b) && !lex_lt(b, a) {
            assert(!(a.first() < b.first()) && !(b.first() < a.first()));
            assert(a.first() == b.first());
        }
    } else {
        if !lex_lt(a, b) && !lex_lt(b, a) {
            assert(a.len() == 0 && b.len() == 0);
            assert(a =~= b);
        }
        if lex_lt(a, b) && a == b {
            assert(a.len() == b.len());
        }
    }
}

/// `lex_lt` is transitive.
pub proof fn lemma_lex_lt_trans(a: Seq<char>, b: Seq<char>, c: Seq<char>)
    requires
        lex_lt(a, b),
        lex_lt(b, c),
    ensures
        lex_lt(a, c),
    decreases a.len(),
{
    if a.len() > 0 && b.len() > 0 && c.len() > 0 {
        if a.first() == b.first() && b.first() == c.first() {
            lemma_lex_lt_trans(a.drop_first(), b.drop_first(), c.drop_first());
        }
    }
}

/// `ver_lt` is a strict total order: of `a < b`, `b < a` and equality,
/// exactly one holds.
pub proof fn lemma_ver_lt_total(a: VersionV, b: VersionV)
    ensures
        ver_lt(a, b) ==> !ver_lt(b, a) && !ver_eq(a, b),
        !ver_lt(a, b) && !ver_lt(b, a) ==> ver_eq(a, b),
{
    match (a.pre, b.pre) {
        (Some(x), Some(y)) => lemma_lex_lt_total(x, y),
        _ => (),
    }
}

/// `ver_lt` is transitive.
pub proof fn lemma_ver_lt_trans(a: VersionV, b: VersionV, c: VersionV)
    requires
        ver_lt(a, b),
        ver_lt(b, c),
    ensures
        ver_lt(a, c),
{
    match (a.pre, b.pre, c.pre) {
        (Some(x), Some(y), Some(z)) => {
            if a.major == c.major && a.minor == c.minor && a.patch == c.patch && lex_lt(x, y)
                && lex_lt(y, z) {
                lemma_lex_lt_trans(x, y, z);
            }
        },
        _ => (),
    }
}

/// Lexicographic comparison of two strings, as `lex_lt` names it.
pub fn lex_lt_str(a: &str, b: &str) -> (r: bool)
    ensures
        r == lex_lt(a@, b@),
{
    let an = a.unicode_len();
    let bn = b.unicode_len();
    let mut i: usize = 0;
    proof {
        assert(a@.skip(0) =~= a@);
        assert(b@.skip(0) =~= b@);
    }
    while i < an && i < bn
        invariant
            0 <= i <= an,
            0 <= i <= bn,
            an == a@.len(),
            bn == b@.len(),
            lex_lt(a@, b@) == lex_lt(a@.skip(i as int), b@.skip(i as int)),
        decreases an - i,
    {
        let ca = a.get_char(i);
        let cb = b.get_char(i);
        proof {
            assert(a@.skip(i as int).first() == ca);
            assert(b@.skip(i as int).first() == cb);
            assert(a@.skip(i as int).drop_first() =~= a@.skip(i as int + 1));
            assert(b@.skip(i as int).drop_first() =~= b@.skip(i as int + 1));
        }
        if ca < cb {
            return true;
        }
        if cb < ca {
            return false;
        }
        i = i + 1;
    }
    proof {
        assert(a@.skip(i as int).len() == an - i);
        assert(b@.skip(i as int).len() == bn - i);
    }
    i >= an && i < bn
}

impl SemVer {
    /// Strict comparison under the total version order.
    pub fn lt(&self, other: &SemVer) -> (r: bool)
        ensures
            r == ver_lt(self@, other@),
    {
        if self.major != other.major {
            return self.major < other.major;
        }
        if self.minor != other.minor {
            return self.minor < other.minor;
        }
        if self.patch != other.patch {
            return self.patch < other.patch;
        }
        match (&self.pre, &other.pre) {
            (Some(x), None) => true,
            (Some(x), Some(y)) => lex_lt_str(x.as_str(), y.as_str()),
            _ => false,
        }
    }
}

/// Character-for-character string equality.
pub fn str_eq(a: &str, b: &str) -> (r: bool)
    ensures
        r == (a@ == b@),
{
    let an = a.unicode_len();
    let bn = b.unicode_len();
    if an != bn {
        proof {
            if a@ == b@ {
                assert(a@.len() == b@.len());
            }
        }
        return false;
    }
    let mut i: usize = 0;
    while i < an
        invariant
            0 <= i <= an,
            an == a@.len(),
            an == b@.len(),
            forall|k: int| 0 <= k < i ==> a@[k] == b@[k],
        decreases an - i,
    {
        if a.get_char(i) != b.get_char(i) {
            proof {
                if a@ == b@ {
                    assert(a@[i as int] == b@[i as int]);
                }
            }
            return false;
        }
        i = i + 1;
    }
    proof {
        assert(a@ =~= b@);
    }
    true
}

impl PartialEq for SemVer {
    fn eq(&self, other: &SemVer) -> (r: bool) {
        self.major == other.major && self.minor == other.minor && self.patch == other.patch
            && match (&self.pre, &other.pre) {
            (None, None) => true,
            (Some(x), Some(y)) => str_eq(x.as_str(), y.as_str()),
            _ => false,
        }
    }
}

impl vstd::std_specs::cmp::PartialEqSpecImpl for SemVer {
    open spec fn obeys_eq_spec() -> bool {
        true
    }

    open spec fn eq_spec(&self, other: &SemVer) -> bool {
        ver_eq(self@, other@)
    }
}

impl Clone for SemVer {
    /// Field-for-field copy; the copy has the same model.
    fn clone(&self) -> (r: SemVer)
        ensures
            r@ == self@,
    {
        SemVer {
            major: self.major,
            minor: self.minor,
            patch: self.patch,
            pre: match &self.pre {
                Some(p) => Some(p.clone()),
                None => None,
            },
        }
    }
}

/// ASCII whitespace, as range trimming understands it.
pub open spec fn is_ws(c: char) -> bool {
    c == ' ' || c == '\t' || c == '\n' || c == '\r'
}

/// `s` without leading whitespace.
pub open spec fn trim_front(s: Seq<char>) -> Seq<char>
    decreases s.len(),
{
    if s.len() > 0 && is_ws(s.first()) {
        trim_front(s.drop_first())
    } else {
        s
    }
}

/// `s` without trailing whitespace.
pub open spec fn trim_back(s: Seq<char>) -> Seq<char>
    decreases s.len(),
{
    if s.len() > 0 && is_ws(s.last()) {
        trim_back(s.drop_last())
    } else {
        s
    }
}

/// `s` without leading and trailing whitespace.
pub open spec fn spec_trim(s: Seq<char>) -> Seq<char> {
    trim_back(trim_front(s))
}

pub(crate) fn ws_ok(c: char) -> (r: bool)
    ensures
        r == is_ws(c),
{
    c == ' ' || c == '\t' || c == '\n' || c == '\r'
}

/// The substring of `s` with surrounding whitespace dropped, as `spec_trim`
/// names it.
pub fn trim_str(s: &str) -> (r: &str)
    ensures
        r@ == spec_trim(s@),
{
    let n = s.unicode_len();
    let mut lo: usize = 0;
    proof {
        assert(s@.skip(0) =~= s@);
    }
    while lo < n && ws_ok(s.get_char(lo))
        invariant
            0 <= lo <= n,
            n == s@.len(),
            trim_front(s@) == trim_front(s@.skip(lo as int)),
        decreases n - lo,
    {
        proof {
            assert(s@.skip(lo as int).first() == s@[lo as int]);
            assert(s@.skip(lo as int).drop_first() =~= s@.skip(lo as int + 1));
        }
        lo = lo + 1;
    }
    proof {
        if lo < n {
            assert(trim_front(s@.skip(lo as int)) == s@.skip(lo as int));
        } else {
            assert(s@.skip(lo as int) =~= Seq::<char>::empty());
        }
    }
    let mut hi: usize = n;
    proof {
        assert(s@.skip(lo as int) =~= s@.subrange(lo as int, hi as int));
    }
    while hi > lo && ws_ok(s.get_char(hi - 1))
        invariant
            lo <= hi <= n,
            n == s@.len(),
            trim_front(s@) == trim_front(s@.skip(lo as int)),
            trim_back(s@.skip(lo as int)) == trim_back(s@.subrange(lo as int, hi as int)),
        decreases hi,
    {
        proof {
            assert(s@.subrange(lo as int, hi as int).last() == s@[hi as int - 1]);
            assert(s@.subrange(lo as int, hi as int).drop_last() =~= s@.subrange(
                lo as int,
                hi as int - 1,
            ));
        }
        hi = hi - 1;
    }
    let r = s.substring_char(lo, hi);
    proof {
        let piece = s@.subrange(lo as int, hi as int);
        if hi > lo {
            assert(!is_ws(piece.last()));
            assert(trim_back(piece) == piece);
        } else {
            assert(piece =~= Seq::<char>::empty());
        }
    }
    r
}

/// A primitive range: a wildcard, an exact version, or one of the operators
/// `^`, `~`, `>`, `>=`, `<`, `<=` applied to a version. Text outside these
/// shapes matches nothing.
pub open spec fn spec_satisfies(v: VersionV, range: Seq<char>) -> bool {
    let r = spec_trim(range);
    if r == "latest"@ || r == "*"@ {
        true
    } else if spec_parse_version(r) is Some {
        ver_eq(v, spec_parse_version(r)->0)
    } else if r.len() >= 1 && r[0] == '^' && spec_parse_version(r.skip(1)) is Some {
        let m = spec_parse_version(r.skip(1))->0;
        ver_le(m, v) && v.major == m.major
    } else if r.len() >= 1 && r[0] == '~' && spec_parse_version(r.skip(1)) is Some {
        let m = spec_parse_version(r.skip(1))->0;
        ver_le(m, v) && v.major == m.major && v.minor == m.minor
    } else if r.len() >= 2 && r[0] == '>' && r[1] == '=' && spec_parse_version(r.skip(2)) is Some {
        ver_le(spec_parse_version(r.skip(2))->0, v)
    } else if r.len() >= 1 && r[0] == '>' && spec_parse_version(r.skip(1)) is Some {
        ver_lt(spec_parse_version(r.skip(1))->0, v)
    } else if r.len() >= 2 && r[0] == '<' && r[1] == '=' && spec_parse_version(r.skip(2)) is Some {
        ver_le(v, spec_parse_version(r.skip(2))->0)
    } else if r.len() >= 1 && r[0] == '<' && spec_parse_version(r.skip(1)) is Some {
        ver_lt(v, spec_parse_version(r.skip(1))->0)
    } else {
        false
    }
}

impl SemVer {
    /// Comparison under the total version order, inclusive.
    pub fn le(&self, other: &SemVer) -> (r: bool)
        ensures
            r == ver_le(self@, other@),
    {
        self.lt(other) || self.eq(other)
    }
}

/// Whether `version` lies in the primitive range `range`, as
/// `spec_satisfies` defines it.
pub fn semver_satisfies(version: &SemVer, range: &str) -> (r: bool)
    ensures
        r == spec_satisfies(version@, range@),
{
    let range = trim_str(range);
    if str_eq(range, "latest") || str_eq(range, "*") {
        return true;
    }
    if let Some(exact) = SemVer::parse(range) {
        return version.eq(&exact);
    }
    let n = range.unicode_len();
    if n >= 1 && range.get_char(0) == '^' {
        let rest = range.substring_char(1, n);
        proof {
            assert(rest@ =~= range@.skip(1));
        }
        if let Some(min) = SemVer::parse(rest) {
            return min.le(version) && version.major == min.major;
        }
        return false;
    }
    if n >= 1 && range.get_char(0) == '~' {
        let rest = range.substring_char(1, n);
        proof {
            assert(rest@ =~= range@.skip(1));
        }
        if let Some(min) = SemVer::parse(rest) {
            return min.le(version) && version.major == min.major && version.minor == min.minor;
        }
        return false;
    }
    if n >= 2 && range.get_char(0) == '>' && range.get_char(1) == '=' {
        let rest = range.substring_char(2, n);
        proof {
            assert(rest@ =~= range@.skip(2));
        }
        if let Some(min) = SemVer::parse(rest) {
            return min.le(version);
        }
        proof {
            assert(range@.skip(1)[0] == '=');
            lemma_parse_none_bad_start(range@.skip(1));
        }
        return false;
    }
    if n >= 1 && range.get_char(0) == '>' {
        let rest = range.substring_char(1, n);
        proof {
            assert(rest@ =~= range@.skip(1));
        }
        if let Some(min) = SemVer::parse(rest) {
            return min.lt(version);
        }
        return false;
    }
    if n >= 2 && range.get_char(0) == '<' && range.get_char(1) == '=' {
        let rest = range.substring_char(2, n);
        proof {
            assert(rest@ =~= range@.skip(2));
        }
        if let Some(max) = SemVer::parse(rest) {
            return version.le(&max);
        }
        proof {
            assert(range@.skip(1)[0] == '=');
            lemma_parse_none_bad_start(range@.skip(1));
        }
        return false;
    }
    if n >= 1 && range.get_char(0) == '<' {
        let rest = range.substring_char(1, n);
        proof {
            assert(rest@ =~= range@.skip(1));
        }
        if let Some(max) = SemVer::parse(rest) {
            return version.lt(&max);
        }
        return false;
    }
    false
}

/// Index of the first `||` separator in `s`, if any.
pub open spec fn find_sep(s: Seq<char>) -> Option<int>
    decreases s.len(),
{
    if s.len() < 2 {
        None
    } else if s[0] == '|' && s[1] == '|' {
        Some(0)
    } else {
        match find_sep(s.drop_first()) {
            None => None,
            Some(i) => Some(i + 1),
        }
    }
}

/// What `find_sep` returns: the first index opening `||`, or a guarantee
/// that none does.
pub proof fn lemma_find_sep(s: Seq<char>)
    ensures
        match find_sep(s) {
            Some(i) => 0 <= i && i + 1 < s.len() && s[i] == '|' && s[i + 1] == '|' && forall|k: int|
                0 <= k < i ==> !(#[trigger] s[k] == '|' && s[k + 1] == '|'),
            None => forall|k: int|
                0 <= k && k + 1 < s.len() ==> !(#[trigger] s[k] == '|' && s[k + 1] == '|'),
        },
    decreases s.len(),
{
    if s.len() >= 2 && !(s[0] == '|' && s[1] == '|') {
        let t = s.drop_first();
        lemma_find_sep(t);
        assert(forall|k: int| 0 <= k < t.len() ==> #[trigger] t[k] == s[k + 1]);
        match find_sep(t) {
            Some(j) => {
                assert(find_sep(s) == Some(j + 1));
                assert(s[j + 1] == t[j]);
                assert forall|k: int| 0 <= k < j + 1 implies !(#[trigger] s[k] == '|' && s[k + 1]
                    == '|') by {
                    if k > 0 {
                        assert(t[k - 1] == s[k]);
                        assert(t[k] == s[k + 1]);
                        assert(!(t[k - 1] == '|' && t[k] == '|'));
                    }
                }
            },
            None => {
                assert forall|k: int| 0 <= k && k + 1 < s.len() implies !(#[trigger] s[k] == '|'
                    && s[k + 1] == '|') by {
                    if k > 0 {
                        assert(t[k - 1] == s[k]);
                        assert(t[k] == s[k + 1]);
                        assert(!(t[k - 1] == '|' && t[k] == '|'));
                    }
                }
            },
        }
    }
}

/// A scan that stopped at the first `||` computed `find_sep`.
pub proof fn lemma_find_sep_at(s: Seq<char>, i: int)
    requires
        0 <= i,
        i + 1 < s.len(),
        s[i] == '|',
        s[i + 1] == '|',
        forall|k: int| 0 <= k < i ==> !(#[trigger] s[k] == '|' && s[k + 1] == '|'),
    ensures
        find_sep(s) == Some(i),
{
    lemma_find_sep(s);
    match find_sep(s) {
        Some(j) => {
            if j < i {
                assert(!(s[j] == '|' && s[j + 1] == '|'));
            } else if i < j {
                assert(!(s[i] == '|' && s[i + 1] == '|'));
            }
        },
        None => {
            assert(!(s[i] == '|' && s[i + 1] == '|'));
        },
    }
}

/// Whether any `||`-separated clause of `s` is satisfied by `v`.
pub open spec fn any_clause_sat(v: VersionV, s: Seq<char>) -> bool
    decreases s.len(),
    via any_clause_sat_decreases
{
    match find_sep(s) {
        None => spec_satisfies(v, s),
        Some(i) => spec_satisfies(v, s.take(i)) || any_clause_sat(v, s.skip(i + 2)),
    }
}

#[via_fn]
proof fn any_clause_sat_decreases(v: VersionV, s: Seq<char>) {
    lemma_find_sep(s);
}

/// A composite range: any clause may match, except that a prerelease
/// version matches only when the composite itself mentions a dash.
pub open spec fn spec_satisfies_composite(v: VersionV, comp: Seq<char>) -> bool {
    if v.pre is Some && find_char(comp, '-') is None {
        false
    } else {
        any_clause_sat(v, comp)
    }
}

/// A prerelease version never satisfies a composite without a dash.
/// This keeps prereleases out of ordinary requests.
pub proof fn lemma_prerelease_gating(v: VersionV, comp: Seq<char>)
    requires
        v.pre is Some,
        forall|i: int| 0 <= i < comp.len() ==> comp[i] != '-',
    ensures
        !spec_satisfies_composite(v, comp),
{
    lemma_find_char(comp, '-');
    if let Some(i) = find_char(comp, '-') {
        assert(comp[i] != '-');
    }
}

/// Index of the first `||`, as `find_sep` names it.
fn find_sep_in(s: &str) -> (r: Option<usize>)
    ensures
        match r {
            Some(i) => find_sep(s@) == Some(i as int),
            None => find_sep(s@) is None,
        },
{
    let n = s.unicode_len();
    if n < 2 {
        proof {
            lemma_find_sep(s@);
            if let Some(i) = find_sep(s@) {
                assert(i + 1 < s@.len());
            }
        }
        return None;
    }
    let mut i: usize = 0;
    while i + 1 < n
        invariant
            0 <= i,
            i + 1 <= n,
            n == s@.len(),
            forall|k: int| 0 <= k < i ==> !(#[trigger] s@[k] == '|' && s@[k + 1] == '|'),
        decreases n - i,
    {
        if s.get_char(i) == '|' && s.get_char(i + 1) == '|' {
            proof {
                lemma_find_sep_at(s@, i as int);
            }
            return Some(i);
        }
        i = i + 1;
    }
    proof {
        lemma_find_sep(s@);
        if let Some(j) = find_sep(s@) {
            assert(!(s@[j] == '|' && s@[j + 1] == '|'));
        }
    }
    None
}

/// Whether `version` lies in the composite range `composite`, as
/// `spec_satisfies_composite` defines it: some clause must match, and a
/// prerelease version demands a dash somewhere in the composite.
pub fn satisfies_composite(version: &SemVer, composite: &str) -> (r: bool)
    ensures
        r == spec_satisfies_composite(version@, composite@),
{
    let gate = match &version.pre {
        Some(_) => true,
        None => false,
    };
    if gate {
        if find_char_in(composite, '-').is_none() {
            return false;
        }
    }
    let mut rest: &str = composite;
    loop
        invariant
            any_clause_sat(version@, composite@) == any_clause_sat(version@, rest@),
            spec_satisfies_composite(version@, composite@) == any_clause_sat(version@, composite@),
        decreases rest@.len(),
    {
        match find_sep_in(rest) {
            None => {
                return semver_satisfies(version, rest);
            },
            Some(i) => {
                proof {
                    lemma_find_sep(rest@);
                }
                let clause = rest.substring_char(0, i);
                proof {
                    assert(clause@ =~= rest@.take(i as int));
                }
                if semver_satisfies(version, clause) {
                    return true;
                }
                let rl = rest.unicode_len();
                let next = rest.substring_char(i + 2, rl);
                proof {
                    assert(next@ =~= rest@.skip(i as int + 2));
                }
                rest = next;
            },
        }
    }
}

/// The ASCII digit for a value below ten.
pub open spec fn digit_char(d: nat) -> char {
    if d == 0 {
        '0'
    } else if d == 1 {
        '1'
    } else if d == 2 {
        '2'
    } else if d == 3 {
        '3'
    } else if d == 4 {
        '4'
    } else if d == 5 {
        '5'
    } else if d == 6 {
        '6'
    } else if d == 7 {
        '7'
    } else if d == 8 {
        '8'
    } else {
        '9'
    }
}

/// The decimal digits of `n`, most significant first, no leading zero
/// except for `n == 0` itself.
pub open spec fn spec_u64_digits(n: nat) -> Seq<char>
    decreases n,
{
    if n < 10 {
        seq![digit_char(n)]
    } else {
        spec_u64_digits(n / 10).push(digit_char(n % 10))
    }
}

fn digit_to_char(d: u8) -> (c: char)
    requires
        d <= 9,
    ensures
        c == digit_char(d as nat),
{
    if d == 0 {
        '0'
    } else if d == 1 {
        '1'
    } else if d == 2 {
        '2'
    } else if d == 3 {
        '3'
    } else if d == 4 {
        '4'
    } else if d == 5 {
        '5'
    } else if d == 6 {
        '6'
    } else if d == 7 {
        '7'
    } else if d == 8 {
        '8'
    } else {
        '9'
    }
}

/// Relies on std's `String::push`: appends the one character.
#[verifier::external_body]
pub(crate) fn push_char(s: &mut String, c: char)
    ensures
        final(s)@ == old(s)@.push(c),
{
    s.push(c);
}

/// The decimal rendering of `x`, as `spec_u64_digits` names it.
pub fn u64_to_string(x: u64) -> (r: String)
    ensures
        r@ == spec_u64_digits(x as nat),
    decreases x,
{
    if x < 10 {
        let mut s = String::new();
        push_char(&mut s, digit_to_char(x as u8));
        proof {
            assert(s@ =~= seq![digit_char(x as nat)]);
        }
        s
    } else {
        let mut s = u64_to_string(x / 10);
        push_char(&mut s, digit_to_char((x % 10) as u8));
        s
    }
}

/// The canonical rendering `major.minor.patch` with `-pre` when present.
pub open spec fn spec_format_version(v: VersionV) -> Seq<char> {
    spec_u64_digits(v.major) + seq!['.'] + spec_u64_digits(v.minor) + seq!['.'] + spec_u64_digits(
        v.patch,
    ) + match v.pre {
        Some(p) => seq!['-'] + p,
        None => Seq::<char>::empty(),
    }
}

/// Renders a version canonically, as `spec_format_version` names it.
pub fn format_version(v: &SemVer) -> (r: String)
    ensures
        r@ == spec_format_version(v@),
{
    let mut s = u64_to_string(v.major);
    push_char(&mut s, '.');
    let minor = u64_to_string(v.minor);
    s.append(minor.as_str());
    push_char(&mut s, '.');
    let patch = u64_to_string(v.patch);
    s.append(patch.as_str());
    match &v.pre {
        Some(p) => {
            push_char(&mut s, '-');
            s.append(p.as_str());
        },
        None => {},
    }
    proof {
        assert(s@ =~= spec_format_version(v@));
    }
    s
}

/// The version parsed from candidate `j` of `avail`.
pub open spec fn cand_at(avail: Seq<&str>, j: int) -> Option<VersionV> {
    spec_parse_version(avail[j]@)
}

/// Whether candidate `j` of `avail` parses and satisfies `req`.
pub open spec fn sat_at(avail: Seq<&str>, req: Seq<char>, j: int) -> bool {
    cand_at(avail, j) is Some && spec_satisfies_composite(cand_at(avail, j)->0, req)
}

/// An inclusive bound composes with a strict one.
pub proof fn lemma_ver_le_lt_trans(a: VersionV, b: VersionV, c: VersionV)
    requires
        ver_le(a, b),
        ver_lt(b, c),
    ensures
        ver_lt(a, c),
{
    if !ver_eq(a, b) {
        lemma_ver_lt_trans(a, b, c);
    }
}

/// Picks the greatest candidate that parses and satisfies the composite
/// range, rendered canonically; `None` exactly when no candidate does.
/// Unparseable candidates are skipped.
pub fn select_version(version_req: &str, available: Vec<&str>) -> (r: Option<String>)
    ensures
        match r {
            Some(sel) => exists|i: int|
                0 <= i < available@.len() && #[trigger] sat_at(available@, version_req@, i) && sel@
                    == spec_format_version(cand_at(available@, i)->0) && forall|j: int|
                    0 <= j < available@.len() && #[trigger] sat_at(available@, version_req@, j)
                        ==> ver_le(cand_at(available@, j)->0, cand_at(available@, i)->0),
            None => forall|j: int|
                0 <= j < available@.len() ==> !#[trigger] sat_at(available@, version_req@, j),
        },
{
    let mut best: Option<SemVer> = None;
    let ghost mut best_idx: int = 0;
    let mut idx: usize = 0;
    while idx < available.len()
        invariant
            0 <= idx <= available@.len(),
            match best {
                Some(b) => 0 <= best_idx < idx as int && sat_at(available@, version_req@, best_idx)
                    && cand_at(available@, best_idx) == Some(b@) && forall|j: int|
                    0 <= j < idx as int && #[trigger] sat_at(available@, version_req@, j)
                        ==> ver_le(cand_at(available@, j)->0, b@),
                None => forall|j: int|
                    0 <= j < idx as int ==> !#[trigger] sat_at(available@, version_req@, j),
            },
        decreases available@.len() - idx,
    {
        let cand_str: &str = available[idx];
        if let Some(v) = SemVer::parse(cand_str) {
            if satisfies_composite(&v, version_req) {
                let take_it: bool = match &best {
                    None => true,
                    Some(b) => b.lt(&v),
                };
                if take_it {
                    proof {
                        if let Some(b) = best {
                            assert forall|j: int|
                                0 <= j < idx as int + 1 && #[trigger] sat_at(
                                    available@,
                                    version_req@,
                                    j,
                                ) implies ver_le(cand_at(available@, j)->0, v@) by {
                                if j < idx as int {
                                    lemma_ver_le_lt_trans(cand_at(available@, j)->0, b@, v@);
                                }
                            }
                        }
                        best_idx = idx as int;
                    }
                    best = Some(v);
                } else {
                    proof {
                        lemma_ver_lt_total(best->0@, v@);
                    }
                }
            }
        }
        idx = idx + 1;
    }
    match best {
        Some(b) => Some(format_version(&b)),
        None => None,
    }
}

/// Satisfying a caret range `^b` pins the major number and bounds the
/// version from below: only same-major versions at or above the base match.
pub proof fn lemma_caret_ordering(a: VersionV, b: VersionV, sb: Seq<char>)
    requires
        spec_parse_version(sb) == Some(b),
        a.pre is None,
        b.pre is None,
        spec_satisfies(a, seq!['^'] + sb),
    ensures
        a.major == b.major,
        ver_le(b, a),
{
    let r = seq!['^'] + sb;
    // The base version has no dash, so its main part is the whole text and
    // its last character is a digit.
    lemma_find_char(sb, '-');
    if let Some(d) = find_char(sb, '-') {
        assert(spec_parse_version(sb)->0.pre is Some);
    }
    lemma_find_char(sb, '.');
    let i = find_char(sb, '.')->0;
    let rest = sb.skip(i + 1);
    lemma_find_char(rest, '.');
    let j = find_char(rest, '.')->0;
    let c = rest.skip(j + 1);
    assert(all_digits(c));
    assert(c.len() > 0);
    assert(c[c.len() - 1] == sb[sb.len() - 1]);
    assert(is_digit(sb[sb.len() - 1]));
    // No character of the caret range is trimmed.
    assert(r.first() == '^');
    assert(!is_ws(r.first()));
    assert(r.last() == sb[sb.len() - 1]);
    assert(!is_ws(r.last()));
    assert(trim_front(r) == r);
    assert(trim_back(r) == r);
    assert(spec_trim(r) == r);
    // The range is no wildcard and no exact version, so the caret clause of
    // `spec_satisfies` is the one that held.
    reveal_strlit("latest");
    reveal_strlit("*");
    assert(r != "latest"@);
    assert(r != "*"@);
    assert(!is_digit(r[0]));
    lemma_parse_none_bad_start(r);
    assert(r.skip(1) =~= sb);
}

} // verus!
