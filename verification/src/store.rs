//! The content-addressed store's bookkeeping: key sanitisation for
//! directory names, the `.index` file's format, the cached key set with
//! its time-to-live, and the decisions of installation, removal and
//! listing.
//!
//! Filesystem work happens outside; this module computes which entries
//! are missing, which to install, what the index must say afterwards, and
//! how directory names map back to package names.

use crate::graph::{contains_str, join_at, strs_view};
use crate::registry::{spec_key, PackageVersion, RequestPackage, RequestV};
use crate::semver::{
    find_char, is_ws, lemma_find_char, lemma_find_char_at, push_char, spec_trim, spec_u64_digits,
    str_eq, trim_str, u64_to_string,
};
use crate::specifier::{lemma_rfind_char, rfind_char, rfind_char_in};
use vstd::prelude::*;
use vstd::string::*;

verus! {

/// How long the cached key set stays fresh.
pub const STORE_CACHE_TTL_SECS: u64 = 60;

/// `s` with every slash turned into a plus: safe as one directory name.
pub open spec fn spec_sanitize(s: Seq<char>) -> Seq<char> {
    s.map_values(|c: char| if c == '/' { '+' } else { c })
}

/// `s` with every plus turned back into a slash.
pub open spec fn spec_unsanitize(s: Seq<char>) -> Seq<char> {
    s.map_values(|c: char| if c == '+' { '/' } else { c })
}

/// Escapes `/` to `+`, as `spec_sanitize` names it: scoped package keys
/// become portable directory names.
pub fn sanitize_package_key(key: &str) -> (r: String)
    ensures
        r@ == spec_sanitize(key@),
{
    let n = key.unicode_len();
    let mut out = String::new();
    let mut i: usize = 0;
    while i < n
        invariant
            0 <= i <= n,
            n == key@.len(),
            out@ =~= spec_sanitize(key@).take(i as int),
        decreases n - i,
    {
        let c = key.get_char(i);
        if c == '/' {
            push_char(&mut out, '+');
        } else {
            push_char(&mut out, c);
        }
        proof {
            assert(out@ =~= spec_sanitize(key@).take(i as int + 1));
        }
        i = i + 1;
    }
    proof {
        assert(spec_sanitize(key@).take(n as int) =~= spec_sanitize(key@));
    }
    out
}

/// Unescapes `+` to `/`, as `spec_unsanitize` names it.
pub fn unsanitize_name(s: &str) -> (r: String)
    ensures
        r@ == spec_unsanitize(s@),
{
    let n = s.unicode_len();
    let mut out = String::new();
    let mut i: usize = 0;
    while i < n
        invariant
            0 <= i <= n,
            n == s@.len(),
            out@ =~= spec_unsanitize(s@).take(i as int),
        decreases n - i,
    {
        let c = s.get_char(i);
        if c == '+' {
            push_char(&mut out, '/');
        } else {
            push_char(&mut out, c);
        }
        proof {
            assert(out@ =~= spec_unsanitize(s@).take(i as int + 1));
        }
        i = i + 1;
    }
    proof {
        assert(spec_unsanitize(s@).take(n as int) =~= spec_unsanitize(s@));
    }
    out
}

/// On keys without a plus, unsanitising undoes sanitising.
pub proof fn lemma_sanitize_roundtrip(s: Seq<char>)
    requires
        forall|i: int| 0 <= i < s.len() ==> s[i] != '+',
    ensures
        spec_unsanitize(spec_sanitize(s)) == s,
{
    assert(spec_unsanitize(spec_sanitize(s)) =~= s);
}

/// The index text for a key set: the keys joined by newlines.
pub open spec fn spec_render_index(ks: Seq<Seq<char>>) -> Seq<char>
    decreases ks.len(),
{
    if ks.len() == 0 {
        Seq::<char>::empty()
    } else if ks.len() == 1 {
        ks[0]
    } else {
        ks[0] + seq!['\n'] + spec_render_index(ks.drop_first())
    }
}

/// Appending a key appends a newline and the key, once something is
/// there.
pub proof fn lemma_render_push(ks: Seq<Seq<char>>, y: Seq<char>)
    ensures
        spec_render_index(ks.push(y)) == if ks.len() == 0 {
            y
        } else {
            spec_render_index(ks) + seq!['\n'] + y
        },
    decreases ks.len(),
{
    if ks.len() == 0 {
        assert(ks.push(y).len() == 1);
        assert(ks.push(y)[0] == y);
    } else {
        lemma_render_push(ks.drop_first(), y);
        assert(ks.push(y).drop_first() =~= ks.drop_first().push(y));
        assert(ks.push(y)[0] == ks[0]);
        if ks.len() == 1 {
            assert(ks.drop_first().len() == 0);
            assert(spec_render_index(ks.push(y)) == ks[0] + seq!['\n'] + y);
            assert(spec_render_index(ks) == ks[0]);
        } else {
            assert(spec_render_index(ks) == ks[0] + seq!['\n'] + spec_render_index(
                ks.drop_first(),
            ));
            assert(spec_render_index(ks.push(y)) =~= spec_render_index(ks) + seq!['\n'] + y);
        }
    }
}

/// The index text, as `spec_render_index` names it.
pub fn render_index(keys: &Vec<String>) -> (r: String)
    ensures
        r@ == spec_render_index(strs_view(keys@)),
{
    let mut out = String::new();
    let n = keys.len();
    let mut i: usize = 0;
    proof {
        assert(strs_view(keys@).take(0) =~= Seq::<Seq<char>>::empty());
    }
    while i < n
        invariant
            0 <= i <= n,
            n == keys@.len(),
            out@ == spec_render_index(strs_view(keys@).take(i as int)),
        decreases n - i,
    {
        if i > 0 {
            push_char(&mut out, '\n');
        }
        out.append(keys[i].as_str());
        proof {
            let ksv = strs_view(keys@);
            assert(ksv.take(i as int + 1) =~= ksv.take(i as int).push(ksv[i as int]));
            lemma_render_push(ksv.take(i as int), ksv[i as int]);
            assert(ksv[i as int] == keys@[i as int]@);
        }
        i = i + 1;
    }
    proof {
        assert(strs_view(keys@).take(n as int) =~= strs_view(keys@));
    }
    out
}

/// The lines of `s`, split at every newline.
pub open spec fn spec_lines(s: Seq<char>) -> Seq<Seq<char>>
    decreases s.len(),
    via spec_lines_decreases
{
    match find_char(s, '\n') {
        None => seq![s],
        Some(i) => seq![s.take(i)] + spec_lines(s.skip(i + 1)),
    }
}

#[via_fn]
proof fn spec_lines_decreases(s: Seq<char>) {
    lemma_find_char(s, '\n');
}

/// The keys an index text's lines yield: each line trimmed, empty lines
/// dropped, the first occurrence of each key kept, in order.
pub open spec fn spec_index_list(ls: Seq<Seq<char>>) -> Seq<Seq<char>>
    decreases ls.len(),
{
    if ls.len() == 0 {
        Seq::<Seq<char>>::empty()
    } else {
        let r = spec_index_list(ls.drop_last());
        let x = spec_trim(ls.last());
        if x.len() > 0 && !r.contains(x) {
            r.push(x)
        } else {
            r
        }
    }
}

/// Whether `k` is one of the index text's entries: a trimmed, non-empty
/// line.
pub open spec fn index_has(content: Seq<char>, k: Seq<char>) -> bool {
    exists|li: int|
        0 <= li < spec_lines(content).len() && k == spec_trim(#[trigger] spec_lines(content)[li])
            && k.len() > 0
}

/// Reads an index file's text: each line trimmed, empty lines dropped,
/// the first occurrence of each key kept. The result lists exactly the
/// entries of `index_has`, each once.
pub fn parse_index(content: &str) -> (r: Vec<String>)
    ensures
        strs_view(r@) == spec_index_list(spec_lines(content@)),
        strs_view(r@).no_duplicates(),
        forall|k: int|
            0 <= k < r@.len() ==> index_has(content@, #[trigger] strs_view(r@)[k]),
        forall|li: int|
            0 <= li < spec_lines(content@).len() && spec_trim(
                #[trigger] spec_lines(content@)[li],
            ).len() > 0 ==> strs_view(r@).contains(spec_trim(spec_lines(content@)[li])),
{
    let mut out: Vec<String> = Vec::new();
    let mut rest: &str = content;
    let ghost mut done: Seq<Seq<char>> = Seq::<Seq<char>>::empty();
    proof {
        assert(strs_view(out@) =~= Seq::<Seq<char>>::empty());
        assert(done + spec_lines(rest@) =~= spec_lines(content@));
    }
    loop
        invariant
            done + spec_lines(rest@) == spec_lines(content@),
            strs_view(out@) == spec_index_list(done),
            strs_view(out@).no_duplicates(),
            forall|k: int|
                0 <= k < out@.len() ==> index_has(content@, #[trigger] strs_view(out@)[k]),
            forall|li: int|
                0 <= li < done.len() && spec_trim(#[trigger] done[li]).len() > 0 ==> strs_view(
                    out@,
                ).contains(spec_trim(done[li])),
        decreases rest@.len(),
    {
        proof {
            lemma_find_char(rest@, '\n');
        }
        let line: &str;
        let nl = crate::semver::find_char_in(rest, '\n');
        let rl = rest.unicode_len();
        match nl {
            Some(i) => {
                line = rest.substring_char(0, i);
                proof {
                    assert(line@ =~= rest@.take(i as int));
                }
            },
            None => {
                line = rest;
            },
        }
        let trimmed = trim_str(line);
        let ghost line_seq = line@;
        let ghost pos_in_lines = done.len() as int;
        proof {
            assert(spec_lines(content@)[pos_in_lines] == line_seq);
        }
        let ghost out_entry = out@;
        let keep = trimmed.unicode_len() > 0 && !contains_str(&out, trimmed);
        if keep {
            let ghost out_pre = out@;
            out.push(String::from_str(trimmed));
            proof {
                assert(forall|k: int|
                    0 <= k < out_pre.len() ==> #[trigger] out@[k] == out_pre[k]);
                assert(strs_view(out@) =~= strs_view(out_pre).push(trimmed@));
                assert(strs_view(out@)[out_pre.len() as int] == spec_trim(line_seq));
                assert(index_has(content@, spec_trim(line_seq)));
            }
        }
        let ghost done2 = done.push(line_seq);
        proof {
            assert(done2.drop_last() =~= done);
            assert(done2.last() == line_seq);
            if keep {
                assert(strs_view(out@) =~= spec_index_list(done).push(spec_trim(line_seq)));
                assert(strs_view(out@) == spec_index_list(done2));
            } else {
                assert(spec_trim(line_seq).len() == 0 || spec_index_list(done).contains(
                    spec_trim(line_seq),
                ));
                assert(strs_view(out@) == spec_index_list(done2));
            }
            assert(forall|k: int|
                0 <= k < out_entry.len() ==> #[trigger] out@[k] == out_entry[k]);
            assert forall|li: int|
                0 <= li < done2.len() && spec_trim(#[trigger] done2[li]).len() > 0 implies strs_view(
                out@,
            ).contains(spec_trim(done2[li])) by {
                if li < done.len() {
                    assert(done2[li] == done[li]);
                    assert(strs_view(out_entry).contains(spec_trim(done[li])));
                    let u = choose|u: int|
                        0 <= u < strs_view(out_entry).len() && strs_view(out_entry)[u] == spec_trim(
                            done[li],
                        );
                    assert(strs_view(out@)[u] == spec_trim(done[li]));
                } else {
                    assert(done2[li] == line_seq);
                    assert(strs_view(out@).contains(spec_trim(line_seq)));
                }
            }
        }
        match nl {
            Some(i) => {
                let next = rest.substring_char(i + 1, rl);
                proof {
                    assert(next@ =~= rest@.skip(i as int + 1));
                    assert(done2 + spec_lines(next@) =~= spec_lines(content@));
                    done = done2;
                }
                rest = next;
            },
            None => {
                proof {
                    assert(done2 =~= spec_lines(content@));
                    done = done2;
                }
                return out;
            },
        }
    }
}

/// A key safe for the index: non-empty and free of whitespace.
pub open spec fn index_safe_key(k: Seq<char>) -> bool {
    k.len() > 0 && forall|i: int| 0 <= i < k.len() ==> !is_ws(#[trigger] k[i])
}

/// Trimming does not touch a safe key.
pub proof fn lemma_trim_noop(k: Seq<char>)
    requires
        forall|i: int| 0 <= i < k.len() ==> !is_ws(#[trigger] k[i]),
    ensures
        spec_trim(k) == k,
{
    if k.len() > 0 {
        assert(!is_ws(k.first()));
        assert(!is_ws(k.last()));
    }
}

/// Splitting the rendered index recovers the keys.
pub proof fn lemma_lines_of_render(ks: Seq<Seq<char>>)
    requires
        ks.len() > 0,
        forall|t: int| 0 <= t < ks.len() ==> index_safe_key(#[trigger] ks[t]),
    ensures
        spec_lines(spec_render_index(ks)) == ks,
    decreases ks.len(),
{
    let r = spec_render_index(ks);
    if ks.len() == 1 {
        lemma_find_char(r, '\n');
        if let Some(i) = find_char(r, '\n') {
            assert(is_ws(ks[0][i]));
        }
        assert(spec_lines(r) =~= ks);
    } else {
        let k0 = ks[0];
        assert(r == k0 + seq!['\n'] + spec_render_index(ks.drop_first()));
        assert(r[k0.len() as int] == '\n');
        assert forall|k: int| 0 <= k < k0.len() implies r[k] != '\n' by {
            assert(r[k] == k0[k]);
            assert(!is_ws(k0[k]));
        }
        lemma_find_char_at(r, '\n', k0.len() as int);
        assert(r.take(k0.len() as int) =~= k0);
        assert(r.skip(k0.len() as int + 1) =~= spec_render_index(ks.drop_first()));
        assert forall|t: int| 0 <= t < ks.drop_first().len() implies index_safe_key(
            #[trigger] ks.drop_first()[t],
        ) by {
            assert(ks.drop_first()[t] == ks[t + 1]);
        }
        lemma_lines_of_render(ks.drop_first());
        assert(spec_lines(r) =~= ks);
    }
}

/// The index lists exactly the rendered keys: writing a key set and
/// reading it back loses and invents nothing.
pub proof fn lemma_index_roundtrip(ks: Seq<Seq<char>>)
    requires
        forall|t: int| 0 <= t < ks.len() ==> index_safe_key(#[trigger] ks[t]),
    ensures
        forall|k: Seq<char>| #[trigger] index_has(spec_render_index(ks), k) <==> ks.contains(k),
{
    let r = spec_render_index(ks);
    if ks.len() == 0 {
        assert(r =~= Seq::<char>::empty());
        assert(find_char(r, '\n') is None);
        assert(spec_lines(r) =~= seq![Seq::<char>::empty()]);
        assert forall|k: Seq<char>| #[trigger] index_has(r, k) implies ks.contains(k) by {
            let li = choose|li: int|
                0 <= li < spec_lines(r).len() && k == spec_trim(spec_lines(r)[li]) && k.len() > 0;
            assert(spec_lines(r)[li] =~= Seq::<char>::empty());
            assert(spec_trim(Seq::<char>::empty()) =~= Seq::<char>::empty());
        }
        assert(forall|k: Seq<char>| !ks.contains(k));
    } else {
        lemma_lines_of_render(ks);
        assert forall|k: Seq<char>| #[trigger] index_has(r, k) implies ks.contains(k) by {
            let li = choose|li: int|
                0 <= li < spec_lines(r).len() && k == spec_trim(spec_lines(r)[li]) && k.len() > 0;
            lemma_trim_noop(ks[li]);
            assert(k == ks[li]);
        }
        assert forall|k: Seq<char>| ks.contains(k) implies #[trigger] index_has(r, k) by {
            let t = choose|t: int| 0 <= t < ks.len() && ks[t] == k;
            lemma_trim_noop(ks[t]);
            assert(spec_lines(r)[t] == ks[t]);
            assert(k == spec_trim(spec_lines(r)[t]) && k.len() > 0);
        }
    }
}

/// Whether `pre` opens `s`.
pub open spec fn is_prefix(pre: Seq<char>, s: Seq<char>) -> bool {
    pre.len() <= s.len() && s.take(pre.len() as int) == pre
}

fn str_has_prefix(s: &str, pre: &str) -> (r: bool)
    ensures
        r == is_prefix(pre@, s@),
{
    let pn = pre.unicode_len();
    let sn = s.unicode_len();
    if pn > sn {
        return false;
    }
    let mut i: usize = 0;
    while i < pn
        invariant
            0 <= i <= pn,
            pn == pre@.len(),
            sn == s@.len(),
            pn <= sn,
            forall|k: int| 0 <= k < i ==> s@[k] == pre@[k],
        decreases pn - i,
    {
        if s.get_char(i) != pre.get_char(i) {
            proof {
                if is_prefix(pre@, s@) {
                    assert(s@.take(pn as int)[i as int] == pre@[i as int]);
                }
            }
            return false;
        }
        i = i + 1;
    }
    proof {
        assert(s@.take(pn as int) =~= pre@);
    }
    true
}

fn any_with_prefix(keys: &Vec<String>, pre: &str) -> (r: bool)
    ensures
        r == exists|t: int|
            0 <= t < keys@.len() && is_prefix(pre@, #[trigger] strs_view(keys@)[t]),
{
    let n = keys.len();
    let mut i: usize = 0;
    while i < n
        invariant
            0 <= i <= n,
            n == keys@.len(),
            forall|k: int| 0 <= k < i ==> !is_prefix(pre@, #[trigger] strs_view(keys@)[k]),
        decreases n - i,
    {
        if str_has_prefix(keys[i].as_str(), pre) {
            proof {
                assert(is_prefix(pre@, strs_view(keys@)[i as int]));
            }
            return true;
        }
        i = i + 1;
    }
    false
}

/// Whether the key set already covers a request: a ranged request by its
/// exact key, a bare one by any key of that package.
pub open spec fn spec_installed(ks: Seq<Seq<char>>, p: RequestV) -> bool {
    match p.version {
        Some(v) => ks.contains(p.name + seq!['@'] + v),
        None => exists|t: int| 0 <= t < ks.len() && is_prefix(p.name + seq!['@'], #[trigger] ks[t]),
    }
}

/// The views of request runs and manifest runs.
pub open spec fn reqs_view(s: Seq<RequestPackage>) -> Seq<RequestV> {
    s.map_values(|p: RequestPackage| p@)
}

/// The views of a run of manifests.
pub open spec fn mans_view(s: Seq<PackageVersion>) -> Seq<crate::registry::ManifestV> {
    s.map_values(|m: PackageVersion| m@)
}

/// The requests no cached key covers, in order.
pub open spec fn spec_missing(ks: Seq<Seq<char>>, reqs: Seq<RequestV>) -> Seq<RequestV>
    decreases reqs.len(),
{
    if reqs.len() == 0 {
        Seq::<RequestV>::empty()
    } else {
        let r = spec_missing(ks, reqs.drop_last());
        if !spec_installed(ks, reqs.last()) {
            r.push(reqs.last())
        } else {
            r
        }
    }
}

/// What an install would do to a key set: the manifests whose keys are
/// not yet present, in order.
pub open spec fn spec_plan(
    ms: Seq<crate::registry::ManifestV>,
    ks: Seq<Seq<char>>,
) -> Seq<crate::registry::ManifestV>
    decreases ms.len(),
{
    if ms.len() == 0 {
        Seq::<crate::registry::ManifestV>::empty()
    } else {
        let r = spec_plan(ms.drop_last(), ks);
        if !ks.contains(spec_key(ms.last())) {
            r.push(ms.last())
        } else {
            r
        }
    }
}

/// Installing twice changes nothing: once the key set holds everything
/// the first install added, a second plan over the same manifests is
/// empty.
pub proof fn lemma_install_idempotent(
    ms: Seq<crate::registry::ManifestV>,
    ks: Seq<Seq<char>>,
    ks2: Seq<Seq<char>>,
)
    requires
        forall|k: Seq<char>|
            ks.contains(k) || crate::graph::manifest_keys_v(spec_plan(ms, ks)).contains(k)
                ==> #[trigger] ks2.contains(k),
    ensures
        spec_plan(ms, ks2) == Seq::<crate::registry::ManifestV>::empty(),
    decreases ms.len(),
{
    if ms.len() > 0 {
        let last = ms.last();
        let rest = ms.drop_last();
        let plan_keys = crate::graph::manifest_keys_v(spec_plan(ms, ks));
        let rest_keys = crate::graph::manifest_keys_v(spec_plan(rest, ks));
        assert forall|k: Seq<char>|
            ks.contains(k) || rest_keys.contains(k) implies #[trigger] ks2.contains(k) by {
            if rest_keys.contains(k) {
                let u = choose|u: int| 0 <= u < rest_keys.len() && rest_keys[u] == k;
                assert(spec_plan(rest, ks)[u] == spec_plan(ms, ks)[u]);
                assert(plan_keys[u] == k);
                assert(plan_keys.contains(k));
            }
        }
        lemma_install_idempotent(rest, ks, ks2);
        assert(ks2.contains(spec_key(last))) by {
            if !ks.contains(spec_key(last)) {
                let pl = spec_plan(ms, ks);
                assert(pl == spec_plan(rest, ks).push(last));
                assert(plan_keys[pl.len() - 1] == spec_key(last));
                assert(plan_keys.contains(spec_key(last)));
            }
        }
        assert(spec_plan(ms, ks2) == spec_plan(rest, ks2));
    } else {
        assert(spec_plan(ms, ks2) =~= Seq::<crate::registry::ManifestV>::empty());
    }
}

fn clone_keys(v: &Vec<String>) -> (r: Vec<String>)
    ensures
        strs_view(r@) == strs_view(v@),
{
    let mut r: Vec<String> = Vec::new();
    let n = v.len();
    let mut i: usize = 0;
    proof {
        assert(strs_view(r@) =~= strs_view(v@).take(0));
    }
    while i < n
        invariant
            0 <= i <= n,
            n == v@.len(),
            strs_view(r@) == strs_view(v@).take(i as int),
        decreases n - i,
    {
        let ghost pre = r@;
        r.push(v[i].clone());
        proof {
            assert(forall|k: int| 0 <= k < pre.len() ==> #[trigger] r@[k] == pre[k]);
            assert(strs_view(pre).len() == pre.len());
            assert(r@[pre.len() as int]@ == v@[i as int]@);
            assert(strs_view(r@) =~= strs_view(pre).push(v@[i as int]@));
            assert(strs_view(v@).take(i as int + 1) =~= strs_view(v@).take(i as int).push(
                v@[i as int]@,
            ));
        }
        i = i + 1;
    }
    proof {
        assert(strs_view(v@).take(n as int) =~= strs_view(v@));
    }
    r
}

/// A cached key set and the moment it was read.
pub struct StoreCache {
    pub keys: Vec<String>,
    pub fetched_at: u64,
}

/// The store's bookkeeping state: its root path and the cached key set
/// with the moment it was read.
pub struct Store {
    pub store_path: String,
    pub cache: Option<StoreCache>,
}

impl Store {
    /// Cached keys are pairwise distinct and safe for the index file:
    /// non-empty and free of whitespace.
    pub open spec fn wf(&self) -> bool {
        self.cache matches Some(c) ==> strs_view(c.keys@).no_duplicates() && forall|t: int|
            0 <= t < c.keys@.len() ==> index_safe_key(#[trigger] strs_view(c.keys@)[t])
    }

    /// The cached key set's views.
    pub open spec fn cached_keys(&self) -> Seq<Seq<char>>
        recommends
            self.cache is Some,
    {
        strs_view(self.cache->0.keys@)
    }

    /// A store over `store_path` whose key set was just read.
    pub fn new(store_path: String, initial_keys: Vec<String>, now: u64) -> (r: Store)
        requires
            strs_view(initial_keys@).no_duplicates(),
            forall|t: int|
                0 <= t < initial_keys@.len() ==> index_safe_key(
                    #[trigger] strs_view(initial_keys@)[t],
                ),
        ensures
            r.wf(),
            r.store_path == store_path,
            r.cache matches Some(c) && c.keys == initial_keys && c.fetched_at == now,
    {
        Store { store_path, cache: Some(StoreCache { keys: initial_keys, fetched_at: now }) }
    }

    /// The cached keys, copied, when the cache is present and fresh;
    /// `None` when it is absent or stale, so the caller must rescan.
    pub fn get_cached_packages(&self, now: u64) -> (r: Option<Vec<String>>)
        ensures
            match r {
                Some(v) => self.cache matches Some(c) && ((now as int - c.fetched_at as int) < (
                STORE_CACHE_TTL_SECS as int)) && strs_view(v@) == strs_view(c.keys@),
                None => match self.cache {
                    Some(c) => (now as int - c.fetched_at as int) >= (STORE_CACHE_TTL_SECS as int),
                    None => true,
                },
            },
    {
        match &self.cache {
            Some(c) => {
                if now >= c.fetched_at && now - c.fetched_at < STORE_CACHE_TTL_SECS {
                    Some(clone_keys(&c.keys))
                } else if now < c.fetched_at {
                    Some(clone_keys(&c.keys))
                } else {
                    None
                }
            },
            None => None,
        }
    }

    /// Replaces the cached key set after a rescan.
    pub fn refresh(&mut self, keys: Vec<String>, now: u64)
        requires
            strs_view(keys@).no_duplicates(),
            forall|t: int|
                0 <= t < keys@.len() ==> index_safe_key(#[trigger] strs_view(keys@)[t]),
        ensures
            final(self).wf(),
            final(self).store_path == old(self).store_path,
            final(self).cache matches Some(c) && c.keys == keys && c.fetched_at == now,
    {
        self.cache = Some(StoreCache { keys, fetched_at: now });
    }

    /// Splits requests into those the store lacks and the count it
    /// already holds: the missing ones, in order, are exactly the
    /// requests no cached key covers.
    pub fn filter_missing_packages(&self, requested: &Vec<RequestPackage>) -> (r: (
        Vec<RequestPackage>,
        usize,
    ))
        requires
            self.cache is Some,
        ensures
            reqs_view(r.0@) == spec_missing(self.cached_keys(), reqs_view(requested@)),
            r.1 + r.0@.len() == requested@.len(),
    {
        let keys: &Vec<String> = match &self.cache {
            Some(c) => &c.keys,
            None => unreached(),
        };
        let ghost ks = self.cached_keys();
        let ghost reqv = reqs_view(requested@);
        let mut missing: Vec<RequestPackage> = Vec::new();
        let mut existing_count: usize = 0;
        let n = requested.len();
        let mut i: usize = 0;
        proof {
            assert(reqv.take(0) =~= Seq::<RequestV>::empty());
            assert(reqs_view(missing@) =~= spec_missing(ks, reqv.take(0)));
        }
        while i < n
            invariant
                0 <= i <= n,
                n == requested@.len(),
                self.cache is Some,
                keys@ == self.cache->0.keys@,
                ks == self.cached_keys(),
                reqv == reqs_view(requested@),
                reqs_view(missing@) == spec_missing(ks, reqv.take(i as int)),
                existing_count + missing@.len() == i,
            decreases n - i,
        {
            let p = &requested[i];
            let covered: bool = match &p.version {
                Some(v) => {
                    let key = join_at(p.name.as_str(), v.as_str());
                    contains_str(keys, key.as_str())
                },
                None => {
                    let mut pre = p.name.clone();
                    push_char(&mut pre, '@');
                    let hit = any_with_prefix(keys, pre.as_str());
                    proof {
                        assert(pre@ =~= p@.name + seq!['@']);
                    }
                    hit
                },
            };
            proof {
                assert(reqv[i as int] == p@);
                assert(covered == spec_installed(ks, p@));
                assert(reqv.take(i as int + 1).drop_last() =~= reqv.take(i as int));
                assert(reqv.take(i as int + 1).last() == p@);
            }
            if covered {
                existing_count = existing_count + 1;
            } else {
                let ghost pre_m = missing@;
                missing.push(p.clone());
                proof {
                    assert(forall|k: int|
                        0 <= k < pre_m.len() ==> #[trigger] missing@[k] == pre_m[k]);
                    assert(reqs_view(pre_m).len() == pre_m.len());
                    assert(missing@[pre_m.len() as int]@ == p@);
                    assert(reqs_view(missing@) =~= reqs_view(pre_m).push(p@));
                }
            }
            i = i + 1;
        }
        proof {
            assert(reqv.take(n as int) =~= reqv);
        }
        (missing, existing_count)
    }

    /// The manifests an install must still fetch: those whose concrete
    /// keys the store lacks, in order.
    pub fn plan_install(&self, packages: &Vec<PackageVersion>) -> (r: Vec<PackageVersion>)
        requires
            self.cache is Some,
        ensures
            mans_view(r@) == spec_plan(mans_view(packages@), self.cached_keys()),
    {
        let keys: &Vec<String> = match &self.cache {
            Some(c) => &c.keys,
            None => unreached(),
        };
        let ghost ks = self.cached_keys();
        let ghost msv = mans_view(packages@);
        let mut out: Vec<PackageVersion> = Vec::new();
        let n = packages.len();
        let mut i: usize = 0;
        proof {
            assert(msv.take(0) =~= Seq::<crate::registry::ManifestV>::empty());
            assert(mans_view(out@) =~= spec_plan(msv.take(0), ks));
        }
        while i < n
            invariant
                0 <= i <= n,
                n == packages@.len(),
                self.cache is Some,
                keys@ == self.cache->0.keys@,
                ks == self.cached_keys(),
                msv == mans_view(packages@),
                mans_view(out@) == spec_plan(msv.take(i as int), ks),
            decreases n - i,
        {
            let m = &packages[i];
            let key = crate::graph::key_of_manifest(m);
            proof {
                assert(msv[i as int] == m@);
                assert(msv.take(i as int + 1).drop_last() =~= msv.take(i as int));
                assert(msv.take(i as int + 1).last() == m@);
            }
            if !contains_str(keys, key.as_str()) {
                let ghost pre_o = out@;
                out.push(m.clone());
                proof {
                    assert(forall|k: int| 0 <= k < pre_o.len() ==> #[trigger] out@[k] == pre_o[k]);
                    assert(mans_view(pre_o).len() == pre_o.len());
                    assert(out@[pre_o.len() as int]@ == m@);
                    assert(mans_view(out@) =~= mans_view(pre_o).push(m@));
                }
            }
            i = i + 1;
        }
        proof {
            assert(msv.take(n as int) =~= msv);
        }
        out
    }

    /// Records freshly installed keys: the cached set becomes its union
    /// with them, stamped `now`, and the returned text is the index that
    /// set renders to.
    pub fn commit_install(&mut self, installed: &Vec<String>, now: u64) -> (r: String)
        requires
            old(self).wf(),
            forall|t: int|
                0 <= t < installed@.len() ==> index_safe_key(
                    #[trigger] strs_view(installed@)[t],
                ),
        ensures
            final(self).wf(),
            final(self).store_path == old(self).store_path,
            final(self).cache is Some,
            final(self).cache->0.fetched_at == now,
            forall|k: Seq<char>|
                #[trigger] final(self).cached_keys().contains(k) <==> (match old(self).cache {
                    Some(c) => strs_view(c.keys@).contains(k),
                    None => false,
                } || strs_view(installed@).contains(k)),
            r@ == spec_render_index(final(self).cached_keys()),
            forall|k: Seq<char>|
                #[trigger] index_has(r@, k) <==> final(self).cached_keys().contains(k),
    {
        let ghost old_keys: Seq<Seq<char>> = match &self.cache {
            Some(c) => strs_view(c.keys@),
            None => Seq::<Seq<char>>::empty(),
        };
        let mut keys: Vec<String> = match &self.cache {
            Some(c) => clone_keys(&c.keys),
            None => Vec::new(),
        };
        proof {
            if self.cache is None {
                assert(strs_view(keys@) =~= Seq::<Seq<char>>::empty());
            }
        }
        let ghost iv = strs_view(installed@);
        let n = installed.len();
        let mut i: usize = 0;
        proof {
            assert(iv.take(0) =~= Seq::<Seq<char>>::empty());
        }
        while i < n
            invariant
                0 <= i <= n,
                n == installed@.len(),
                iv == strs_view(installed@),
                forall|t: int| 0 <= t < iv.len() ==> index_safe_key(#[trigger] iv[t]),
                strs_view(keys@).no_duplicates(),
                forall|t: int|
                    0 <= t < keys@.len() ==> index_safe_key(#[trigger] strs_view(keys@)[t]),
                forall|k: Seq<char>|
                    #[trigger] strs_view(keys@).contains(k) <==> (old_keys.contains(k) || iv.take(
                        i as int,
                    ).contains(k)),
            decreases n - i,
        {
            let ghost keys_pre = keys@;
            proof {
                assert(iv.take(i as int + 1).drop_last() =~= iv.take(i as int));
                assert(iv.take(i as int + 1).last() == iv[i as int]);
            }
            if !contains_str(&keys, installed[i].as_str()) {
                keys.push(installed[i].clone());
                proof {
                    assert(forall|k: int|
                        0 <= k < keys_pre.len() ==> #[trigger] keys@[k] == keys_pre[k]);
                    assert(strs_view(keys_pre).len() == keys_pre.len());
                    assert(keys@[keys_pre.len() as int]@ == iv[i as int]);
                    assert(strs_view(keys@) =~= strs_view(keys_pre).push(iv[i as int]));
                    assert(index_safe_key(iv[i as int]));
                    assert forall|t: int| 0 <= t < keys@.len() implies index_safe_key(
                        #[trigger] strs_view(keys@)[t],
                    ) by {
                        if t < keys_pre.len() {
                            assert(keys@[t] == keys_pre[t]);
                            assert(strs_view(keys@)[t] == strs_view(keys_pre)[t]);
                            assert(index_safe_key(strs_view(keys_pre)[t]));
                        } else {
                            assert(strs_view(keys@)[t] == iv[i as int]);
                        }
                    }
                    assert forall|k: Seq<char>| #[trigger] strs_view(keys@).contains(k) implies (
                    old_keys.contains(k) || iv.take(i as int + 1).contains(k)) by {
                        let u = choose|u: int|
                            0 <= u < strs_view(keys@).len() && strs_view(keys@)[u] == k;
                        if u < keys_pre.len() {
                            assert(strs_view(keys_pre).contains(k));
                        } else {
                            assert(k == iv[i as int]);
                            assert(iv.take(i as int + 1)[i as int] == k);
                        }
                    }
                    assert forall|k: Seq<char>| (old_keys.contains(k) || iv.take(
                        i as int + 1,
                    ).contains(k)) implies #[trigger] strs_view(keys@).contains(k) by {
                        if old_keys.contains(k) || iv.take(i as int).contains(k) {
                            assert(strs_view(keys_pre).contains(k));
                            let u = choose|u: int|
                                0 <= u < strs_view(keys_pre).len() && strs_view(keys_pre)[u] == k;
                            assert(strs_view(keys@)[u] == k);
                        } else {
                            let u = choose|u: int|
                                0 <= u < iv.take(i as int + 1).len() && #[trigger] iv.take(
                                    i as int + 1,
                                )[u] == k;
                            assert(u == i);
                            assert(k == iv[i as int]);
                            assert(strs_view(keys@)[keys_pre.len() as int] == k);
                        }
                    }
                }
            } else {
                proof {
                    assert forall|k: Seq<char>| (old_keys.contains(k) || iv.take(
                        i as int + 1,
                    ).contains(k)) implies #[trigger] strs_view(keys@).contains(k) by {
                        if !old_keys.contains(k) && !iv.take(i as int).contains(k) {
                            let u = choose|u: int|
                                0 <= u < iv.take(i as int + 1).len() && #[trigger] iv.take(
                                    i as int + 1,
                                )[u] == k;
                            assert(u == i);
                            assert(k == iv[i as int]);
                        }
                    }
                    assert forall|k: Seq<char>| #[trigger] strs_view(keys@).contains(k) implies (
                    old_keys.contains(k) || iv.take(i as int + 1).contains(k)) by {
                        if iv.take(i as int).contains(k) {
                            let u = choose|u: int|
                                0 <= u < iv.take(i as int).len() && #[trigger] iv.take(
                                    i as int,
                                )[u] == k;
                            assert(iv.take(i as int + 1)[u] == k);
                        }
                    }
                }
            }
            i = i + 1;
        }
        proof {
            assert(iv.take(n as int) =~= iv);
        }
        let index = render_index(&keys);
        proof {
            lemma_index_roundtrip(strs_view(keys@));
        }
        self.cache = Some(StoreCache { keys, fetched_at: now });
        index
    }

    /// Forgets one key: the store directory's name to delete is returned,
    /// sanitised; the cached set, when present, loses exactly that key.
    pub fn remove(&mut self, name: &str, version: &str) -> (r: String)
        requires
            old(self).wf(),
        ensures
            final(self).wf(),
            final(self).store_path == old(self).store_path,
            r@ == spec_sanitize(name@ + seq!['@'] + version@),
            match old(self).cache {
                Some(c) => final(self).cache matches Some(c2) && c2.fetched_at == c.fetched_at
                    && forall|k: Seq<char>|
                    #[trigger] strs_view(c2.keys@).contains(k) <==> (strs_view(
                        c.keys@,
                    ).contains(k) && k != name@ + seq!['@'] + version@),
                None => final(self).cache is None,
            },
    {
        let key = join_at(name, version);
        let sanitized = sanitize_package_key(key.as_str());
        let stamp: Option<u64> = match &self.cache {
            Some(c) => Some(c.fetched_at),
            None => None,
        };
        if let Some(ts) = stamp {
            let old_vec: &Vec<String> = match &self.cache {
                Some(c) => &c.keys,
                None => unreached(),
            };
            let ghost ov = strs_view(old_vec@);
            let mut kept: Vec<String> = Vec::new();
            let n = old_vec.len();
            let mut i: usize = 0;
            proof {
                assert(ov.take(0) =~= Seq::<Seq<char>>::empty());
            }
            while i < n
                invariant
                    0 <= i <= n,
                    n == old_vec@.len(),
                    old_vec@ == old(self).cache->0.keys@,
                    ov == strs_view(old_vec@),
                    ov.no_duplicates(),
                    forall|t: int| 0 <= t < ov.len() ==> index_safe_key(#[trigger] ov[t]),
                    strs_view(kept@).no_duplicates(),
                    forall|t: int|
                        0 <= t < kept@.len() ==> index_safe_key(#[trigger] strs_view(kept@)[t]),
                    key@ == name@ + seq!['@'] + version@,
                    forall|k: Seq<char>|
                        #[trigger] strs_view(kept@).contains(k) <==> (ov.take(i as int).contains(k)
                            && k != key@),
                decreases n - i,
            {
                proof {
                    assert(ov.take(i as int + 1).drop_last() =~= ov.take(i as int));
                    assert(ov.take(i as int + 1).last() == ov[i as int]);
                }
                if !str_eq(old_vec[i].as_str(), key.as_str()) {
                    let ghost pre_k = kept@;
                    kept.push(old_vec[i].clone());
                    proof {
                        assert(forall|k: int|
                            0 <= k < pre_k.len() ==> #[trigger] kept@[k] == pre_k[k]);
                        assert(strs_view(pre_k).len() == pre_k.len());
                        assert(kept@[pre_k.len() as int]@ == ov[i as int]);
                        assert(strs_view(kept@) =~= strs_view(pre_k).push(ov[i as int]));
                        assert(!strs_view(pre_k).contains(ov[i as int])) by {
                            if ov.take(i as int).contains(ov[i as int]) {
                                let u = choose|u: int|
                                    0 <= u < i && #[trigger] ov.take(i as int)[u] == ov[i as int];
                                assert(ov[u] == ov[i as int]);
                            }
                        }
                        assert forall|k: Seq<char>| #[trigger] strs_view(kept@).contains(
                            k,
                        ) implies (ov.take(i as int + 1).contains(k) && k != key@) by {
                            let u = choose|u: int|
                                0 <= u < strs_view(kept@).len() && strs_view(kept@)[u] == k;
                            if u < pre_k.len() {
                                assert(strs_view(pre_k).contains(k));
                                let w = choose|w: int|
                                    0 <= w < i && #[trigger] ov.take(i as int)[w] == k;
                                assert(ov.take(i as int + 1)[w] == k);
                            } else {
                                assert(k == ov[i as int]);
                                assert(ov.take(i as int + 1)[i as int] == k);
                            }
                        }
                        assert forall|k: Seq<char>| (ov.take(i as int + 1).contains(k) && k
                            != key@) implies #[trigger] strs_view(kept@).contains(k) by {
                            let u = choose|u: int|
                                0 <= u < i + 1 && #[trigger] ov.take(i as int + 1)[u] == k;
                            if u < i {
                                assert(ov.take(i as int)[u] == k);
                                assert(strs_view(pre_k).contains(k));
                                let w = choose|w: int|
                                    0 <= w < strs_view(pre_k).len() && strs_view(pre_k)[w] == k;
                                assert(strs_view(kept@)[w] == k);
                            } else {
                                assert(k == ov[i as int]);
                                assert(strs_view(kept@)[pre_k.len() as int] == k);
                            }
                        }
                    }
                } else {
                    proof {
                        assert(ov[i as int] == key@);
                        assert forall|k: Seq<char>| (ov.take(i as int + 1).contains(k) && k
                            != key@) implies #[trigger] strs_view(kept@).contains(k) by {
                            let u = choose|u: int|
                                0 <= u < i + 1 && #[trigger] ov.take(i as int + 1)[u] == k;
                            if u < i {
                                assert(ov.take(i as int)[u] == k);
                            } else {
                                assert(k == ov[i as int]);
                            }
                        }
                        assert forall|k: Seq<char>| #[trigger] strs_view(kept@).contains(
                            k,
                        ) implies (ov.take(i as int + 1).contains(k) && k != key@) by {
                            assert(ov.take(i as int).contains(k));
                            let u = choose|u: int|
                                0 <= u < i && #[trigger] ov.take(i as int)[u] == k;
                            assert(ov.take(i as int + 1)[u] == k);
                        }
                    }
                }
                i = i + 1;
            }
            proof {
                assert(ov.take(n as int) =~= ov);
            }
            self.cache = Some(StoreCache { keys: kept, fetched_at: ts });
        }
        sanitized
    }

    /// Empties the cached key set: after a wipe nothing is installed.
    pub fn clear(&mut self, now: u64)
        ensures
            final(self).wf(),
            final(self).store_path == old(self).store_path,
            final(self).cache matches Some(c) && c.keys@.len() == 0 && c.fetched_at == now,
    {
        let empty: Vec<String> = Vec::new();
        proof {
            assert(strs_view(empty@) =~= Seq::<Seq<char>>::empty());
        }
        self.cache = Some(StoreCache { keys: empty, fetched_at: now });
    }

    /// The index text the current key set renders to: its entries are
    /// exactly the cached keys.
    pub fn index_content(&self) -> (r: String)
        requires
            self.cache is Some,
            self.wf(),
        ensures
            r@ == spec_render_index(self.cached_keys()),
            forall|k: Seq<char>| #[trigger] index_has(r@, k) <==> self.cached_keys().contains(k),
    {
        match &self.cache {
            Some(c) => {
                proof {
                    lemma_index_roundtrip(strs_view(c.keys@));
                }
                render_index(&c.keys)
            },
            None => unreached(),
        }
    }
}

/// The key a store directory name stands for: the name part unsanitised
/// when a version marker is present, the text unchanged otherwise.
pub open spec fn spec_dir_key(name: Seq<char>) -> Seq<char> {
    match rfind_char(name, '@') {
        None => name,
        Some(p) => spec_unsanitize(name.take(p)) + seq!['@'] + name.skip(p + 1),
    }
}

/// The keys a scan of store directory names yields, in order, as
/// `spec_dir_key` names them.
pub fn keys_from_dir_names(names: &Vec<String>) -> (r: Vec<String>)
    ensures
        r@.len() == names@.len(),
        forall|k: int| 0 <= k < r@.len() ==> #[trigger] r@[k]@ == spec_dir_key(names@[k]@),
{
    let mut out: Vec<String> = Vec::new();
    let n = names.len();
    let mut i: usize = 0;
    while i < n
        invariant
            0 <= i <= n,
            n == names@.len(),
            out@.len() == i,
            forall|k: int| 0 <= k < i ==> #[trigger] out@[k]@ == spec_dir_key(names@[k]@),
        decreases n - i,
    {
        let name = &names[i];
        let ghost pre = out@;
        match rfind_char_in(name.as_str(), '@') {
            Some(p) => {
                proof {
                    lemma_rfind_char(name@, '@');
                }
                let nl = name.as_str().unicode_len();
                let mut key = unsanitize_name(name.as_str().substring_char(0, p));
                push_char(&mut key, '@');
                key.append(name.as_str().substring_char(p + 1, nl));
                proof {
                    assert(name@.subrange(0, p as int) =~= name@.take(p as int));
                    assert(name@.subrange(p as int + 1, name@.len() as int) =~= name@.skip(
                        p as int + 1,
                    ));
                    assert(key@ == spec_dir_key(name@));
                }
                out.push(key);
            },
            None => {
                out.push(name.clone());
            },
        }
        proof {
            assert(forall|k: int| 0 <= k < pre.len() ==> #[trigger] out@[k] == pre[k]);
        }
        i = i + 1;
    }
    out
}

/// Relies on `dirs::home_dir`: the user's home directory as text, when
/// the platform names one. Which directory comes back depends on the
/// environment, so nothing more is promised.
#[verifier::external_body]
fn home_dir_path() -> Option<String> {
    dirs::home_dir().map(|p| p.to_string_lossy().to_string())
}

/// The store root under a home directory.
pub fn store_root(home: &str) -> (r: String)
    ensures
        r@ == home@ + "/.qipi/store"@,
{
    let mut out = String::from_str(home);
    out.append("/.qipi/store");
    out
}

/// The default store root under the user's home directory, when the
/// platform names one.
pub fn default_store_path() -> (r: Option<String>)
    ensures
        r matches Some(p) ==> exists|h: Seq<char>| p@ == h + "/.qipi/store"@,
{
    match home_dir_path() {
        Some(h) => {
            let root = store_root(h.as_str());
            proof {
                assert(root@ == h@ + "/.qipi/store"@);
            }
            Some(root)
        },
        None => None,
    }
}

/// What one directory entry contributes to a listing: entries without an
/// `@` are skipped; otherwise the name before the last `@`, unsanitised,
/// the version after it, and the timestamp rendered in decimal.
pub open spec fn spec_list_entry(e: (Seq<char>, Option<u64>)) -> Option<
    (Seq<char>, Seq<char>, Option<Seq<char>>),
> {
    match rfind_char(e.0, '@') {
        None => None,
        Some(p) => Some(
            (
                spec_unsanitize(e.0.take(p)),
                e.0.skip(p + 1),
                match e.1 {
                    Some(ts) => Some(spec_u64_digits(ts as nat)),
                    None => None,
                },
            ),
        ),
    }
}

/// The views of directory entries.
pub open spec fn entries_view(s: Seq<(String, Option<u64>)>) -> Seq<(Seq<char>, Option<u64>)> {
    s.map_values(|e: (String, Option<u64>)| (e.0@, e.1))
}

/// The views of listing rows.
pub open spec fn listing_view(s: Seq<(String, String, Option<String>)>) -> Seq<
    (Seq<char>, Seq<char>, Option<Seq<char>>),
> {
    s.map_values(
        |e: (String, String, Option<String>)|
            (
                e.0@,
                e.1@,
                match e.2 {
                    Some(x) => Some(x@),
                    None => None,
                },
            ),
    )
}

/// The listing of a run of directory entries, in order.
pub open spec fn spec_listing(ev: Seq<(Seq<char>, Option<u64>)>) -> Seq<
    (Seq<char>, Seq<char>, Option<Seq<char>>),
>
    decreases ev.len(),
{
    if ev.len() == 0 {
        Seq::<(Seq<char>, Seq<char>, Option<Seq<char>>)>::empty()
    } else {
        let r = spec_listing(ev.drop_last());
        match spec_list_entry(ev.last()) {
            Some(x) => r.push(x),
            None => r,
        }
    }
}

/// Lists store entries: each directory name with an `@` becomes the
/// package name, version and timestamp text, as `spec_listing` names it;
/// other names are skipped.
pub fn list_entries(entries: &Vec<(String, Option<u64>)>) -> (r: Vec<
    (String, String, Option<String>),
>)
    ensures
        listing_view(r@) == spec_listing(entries_view(entries@)),
{
    let ghost ev = entries_view(entries@);
    let mut out: Vec<(String, String, Option<String>)> = Vec::new();
    let n = entries.len();
    let mut i: usize = 0;
    proof {
        assert(ev.take(0) =~= Seq::<(Seq<char>, Option<u64>)>::empty());
        assert(listing_view(out@) =~= spec_listing(ev.take(0)));
    }
    while i < n
        invariant
            0 <= i <= n,
            n == entries@.len(),
            ev == entries_view(entries@),
            listing_view(out@) == spec_listing(ev.take(i as int)),
        decreases n - i,
    {
        let e = &entries[i];
        proof {
            assert(ev[i as int] == (e.0@, e.1));
            assert(ev.take(i as int + 1).drop_last() =~= ev.take(i as int));
            assert(ev.take(i as int + 1).last() == ev[i as int]);
        }
        match rfind_char_in(e.0.as_str(), '@') {
            Some(pos) => {
                proof {
                    lemma_rfind_char(e.0@, '@');
                }
                let elen = e.0.as_str().unicode_len();
                let name = unsanitize_name(e.0.as_str().substring_char(0, pos));
                let version = String::from_str(e.0.as_str().substring_char(pos + 1, elen));
                let ts: Option<String> = match &e.1 {
                    Some(x) => Some(u64_to_string(*x)),
                    None => None,
                };
                let ghost pre_o = out@;
                proof {
                    assert(e.0@.subrange(0, pos as int) =~= e.0@.take(pos as int));
                    assert(version@ =~= e.0@.skip(pos as int + 1));
                }
                out.push((name, version, ts));
                proof {
                    assert(forall|k: int| 0 <= k < pre_o.len() ==> #[trigger] out@[k] == pre_o[k]);
                    assert(listing_view(pre_o).len() == pre_o.len());
                    assert(listing_view(out@)[pre_o.len() as int] == spec_list_entry(
                        ev[i as int],
                    )->0);
                    assert(listing_view(out@) =~= listing_view(pre_o).push(
                        spec_list_entry(ev[i as int])->0,
                    ));
                }
            },
            None => {},
        }
        i = i + 1;
    }
    proof {
        assert(ev.take(n as int) =~= ev);
    }
    out
}

} // verus!
