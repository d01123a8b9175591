//! Registry data: what a catalogue says about a package and its versions,
//! the request form that names a package and an optional range, and the
//! process-wide catalogue cache with its time-to-live discipline.
//!
//! Dependency maps are held as ordered pairs so that the order the registry
//! reported is kept; the informational fields `engines`, `bin` and
//! `deprecated` carry several wire shapes and play no part in resolution.

use vstd::prelude::*;

verus! {

/// A package request: a name and an optional raw range; an absent range
/// means the latest version.
pub struct RequestPackage {
    pub name: String,
    pub version: Option<String>,
}

/// Mathematical image of a [`RequestPackage`].
pub ghost struct RequestV {
    pub name: Seq<char>,
    pub version: Option<Seq<char>>,
}

impl View for RequestPackage {
    type V = RequestV;

    open spec fn view(&self) -> RequestV {
        RequestV {
            name: self.name@,
            version: match self.version {
                Some(v) => Some(v@),
                None => None,
            },
        }
    }
}

impl Clone for RequestPackage {
    /// The copy names the same package and range.
    fn clone(&self) -> (r: RequestPackage)
        ensures
            r@ == self@,
    {
        RequestPackage {
            name: self.name.clone(),
            version: match &self.version {
                Some(v) => Some(v.clone()),
                None => None,
            },
        }
    }
}

/// Distribution facts of one published version.
pub struct DistInfo {
    pub tarball: String,
    pub shasum: String,
    pub integrity: Option<String>,
    pub file_count: Option<u64>,
    pub unpacked_size: Option<u64>,
}

/// Mathematical image of a [`DistInfo`].
pub ghost struct DistV {
    pub tarball: Seq<char>,
    pub shasum: Seq<char>,
    pub integrity: Option<Seq<char>>,
    pub file_count: Option<u64>,
    pub unpacked_size: Option<u64>,
}

impl View for DistInfo {
    type V = DistV;

    open spec fn view(&self) -> DistV {
        DistV {
            tarball: self.tarball@,
            shasum: self.shasum@,
            integrity: match self.integrity {
                Some(s) => Some(s@),
                None => None,
            },
            file_count: self.file_count,
            unpacked_size: self.unpacked_size,
        }
    }
}

impl Clone for DistInfo {
    /// The copy carries the same distribution facts.
    fn clone(&self) -> (r: DistInfo)
        ensures
            r@ == self@,
    {
        DistInfo {
            tarball: self.tarball.clone(),
            shasum: self.shasum.clone(),
            integrity: match &self.integrity {
                Some(s) => Some(s.clone()),
                None => None,
            },
            file_count: match &self.file_count {
                Some(x) => Some(*x),
                None => None,
            },
            unpacked_size: match &self.unpacked_size {
                Some(x) => Some(*x),
                None => None,
            },
        }
    }
}

/// The `deprecated` field: a notice or a flag.
pub enum DeprecatedField {
    Text(String),
    Bool(bool),
}

/// The `bin` field: named executables or a single path.
pub enum BinField {
    Table(Vec<(String, String)>),
    Str(String),
}

/// The `engines` field: any of the shapes registries send.
pub enum EnginesField {
    Table(Vec<(String, String)>),
    Str(String),
    Bool(bool),
    List(Vec<String>),
}

/// The pairs of a dependency map, each side by its characters.
pub open spec fn pairs_view(s: Seq<(String, String)>) -> Seq<(Seq<char>, Seq<char>)> {
    s.map_values(|p: (String, String)| (p.0@, p.1@))
}

/// A dependency map that may be absent; absence means no entries.
pub open spec fn deps_view(o: Option<Vec<(String, String)>>) -> Seq<(Seq<char>, Seq<char>)> {
    match o {
        Some(v) => pairs_view(v@),
        None => Seq::<(Seq<char>, Seq<char>)>::empty(),
    }
}

/// One version's manifest as the registry describes it.
pub struct PackageVersion {
    pub name: String,
    pub version: String,
    pub dependencies: Option<Vec<(String, String)>>,
    pub dev_dependencies: Option<Vec<(String, String)>>,
    pub peer_dependencies: Option<Vec<(String, String)>>,
    pub optional_dependencies: Option<Vec<(String, String)>>,
    pub dist: DistInfo,
    pub engines: Option<EnginesField>,
    pub bin: Option<BinField>,
    pub deprecated: Option<DeprecatedField>,
}

/// Mathematical image of a [`PackageVersion`]: what resolution and
/// installation read. The informational fields are not part of it.
pub ghost struct ManifestV {
    pub name: Seq<char>,
    pub version: Seq<char>,
    pub deps: Seq<(Seq<char>, Seq<char>)>,
    pub dev_deps: Seq<(Seq<char>, Seq<char>)>,
    pub peer_deps: Seq<(Seq<char>, Seq<char>)>,
    pub opt_deps: Seq<(Seq<char>, Seq<char>)>,
    pub dist: DistV,
}

impl View for PackageVersion {
    type V = ManifestV;

    open spec fn view(&self) -> ManifestV {
        ManifestV {
            name: self.name@,
            version: self.version@,
            deps: deps_view(self.dependencies),
            dev_deps: deps_view(self.dev_dependencies),
            peer_deps: deps_view(self.peer_dependencies),
            opt_deps: deps_view(self.optional_dependencies),
            dist: self.dist@,
        }
    }
}

/// The concrete key `name@version` of a manifest.
pub open spec fn spec_key(m: ManifestV) -> Seq<char> {
    m.name + seq!['@'] + m.version
}

fn clone_pairs(v: &Vec<(String, String)>) -> (r: Vec<(String, String)>)
    ensures
        pairs_view(r@) == pairs_view(v@),
{
    let mut r: Vec<(String, String)> = Vec::new();
    let mut i: usize = 0;
    while i < v.len()
        invariant
            0 <= i <= v@.len(),
            pairs_view(r@) =~~= pairs_view(v@.take(i as int)),
        decreases v@.len() - i,
    {
        let p = &v[i];
        let c0 = p.0.clone();
        let c1 = p.1.clone();
        let ghost pre = r@;
        proof {
            assert(pairs_view(pre).len() == pre.len());
            assert(pre.len() == i as int);
        }
        r.push((c0, c1));
        proof {
            assert(r@.len() == i + 1);
            assert(r@[i as int].0@ == v@[i as int].0@);
            assert(r@[i as int].1@ == v@[i as int].1@);
            assert(forall|k: int| 0 <= k < i ==> #[trigger] r@[k] == pre[k]);
            assert(forall|k: int|
                0 <= k < i ==> #[trigger] pairs_view(pre)[k] == pairs_view(v@.take(i as int))[k]);
            assert forall|k: int| 0 <= k < i + 1 implies #[trigger] pairs_view(r@)[k] == pairs_view(
                v@.take(i as int + 1),
            )[k] by {
                assert(pairs_view(r@)[k] == (r@[k].0@, r@[k].1@));
                assert(pairs_view(v@.take(i as int + 1))[k] == (
                    v@.take(i as int + 1)[k].0@,
                    v@.take(i as int + 1)[k].1@,
                ));
                assert(v@.take(i as int + 1)[k] == v@[k]);
                if k < i {
                    assert(pairs_view(pre)[k] == (pre[k].0@, pre[k].1@));
                    assert(pairs_view(v@.take(i as int))[k] == (
                        v@.take(i as int)[k].0@,
                        v@.take(i as int)[k].1@,
                    ));
                    assert(v@.take(i as int)[k] == v@[k]);
                }
            }
            assert(pairs_view(r@) =~= pairs_view(v@.take(i as int + 1)));
        }
        i = i + 1;
    }
    proof {
        assert(v@.take(v@.len() as int) =~= v@);
    }
    r
}

fn clone_opt_pairs(v: &Option<Vec<(String, String)>>) -> (r: Option<Vec<(String, String)>>)
    ensures
        deps_view(r) == deps_view(*v),
        r is Some <==> v is Some,
{
    match v {
        Some(p) => Some(clone_pairs(p)),
        None => None,
    }
}

fn clone_strings(v: &Vec<String>) -> (r: Vec<String>)
{
    let mut r: Vec<String> = Vec::new();
    let mut i: usize = 0;
    while i < v.len()
        decreases v@.len() - i,
    {
        r.push(v[i].clone());
        i = i + 1;
    }
    r
}

impl Clone for EnginesField {
    fn clone(&self) -> (r: EnginesField) {
        match self {
            EnginesField::Table(m) => EnginesField::Table(clone_pairs(m)),
            EnginesField::Str(s) => EnginesField::Str(s.clone()),
            EnginesField::Bool(b) => EnginesField::Bool(*b),
            EnginesField::List(v) => EnginesField::List(clone_strings(v)),
        }
    }
}

impl Clone for BinField {
    fn clone(&self) -> (r: BinField) {
        match self {
            BinField::Table(m) => BinField::Table(clone_pairs(m)),
            BinField::Str(s) => BinField::Str(s.clone()),
        }
    }
}

impl Clone for DeprecatedField {
    fn clone(&self) -> (r: DeprecatedField) {
        match self {
            DeprecatedField::Text(s) => DeprecatedField::Text(s.clone()),
            DeprecatedField::Bool(b) => DeprecatedField::Bool(*b),
        }
    }
}

impl Clone for PackageVersion {
    /// The copy has the same model: name, version, dependency maps and
    /// distribution facts.
    fn clone(&self) -> (r: PackageVersion)
        ensures
            r@ == self@,
    {
        PackageVersion {
            name: self.name.clone(),
            version: self.version.clone(),
            dependencies: clone_opt_pairs(&self.dependencies),
            dev_dependencies: clone_opt_pairs(&self.dev_dependencies),
            peer_dependencies: clone_opt_pairs(&self.peer_dependencies),
            optional_dependencies: clone_opt_pairs(&self.optional_dependencies),
            dist: self.dist.clone(),
            engines: match &self.engines {
                Some(e) => Some(e.clone()),
                None => None,
            },
            bin: match &self.bin {
                Some(b) => Some(b.clone()),
                None => None,
            },
            deprecated: match &self.deprecated {
                Some(d) => Some(d.clone()),
                None => None,
            },
        }
    }
}

/// A catalogue's listing: raw version strings paired with their manifests.
pub open spec fn catalogue_view(s: Seq<(String, PackageVersion)>) -> Seq<(Seq<char>, ManifestV)> {
    s.map_values(|p: (String, PackageVersion)| (p.0@, p.1@))
}

pub(crate) fn clone_catalogue(v: &Vec<(String, PackageVersion)>) -> (r: Vec<
    (String, PackageVersion),
>)
    ensures
        catalogue_view(r@) == catalogue_view(v@),
{
    let mut r: Vec<(String, PackageVersion)> = Vec::new();
    let mut i: usize = 0;
    while i < v.len()
        invariant
            0 <= i <= v@.len(),
            catalogue_view(r@) =~= catalogue_view(v@.take(i as int)),
        decreases v@.len() - i,
    {
        let p = &v[i];
        let c0 = p.0.clone();
        let c1 = p.1.clone();
        let ghost pre = r@;
        proof {
            assert(catalogue_view(pre).len() == pre.len());
            assert(pre.len() == i as int);
        }
        r.push((c0, c1));
        proof {
            assert(forall|k: int| 0 <= k < i ==> #[trigger] r@[k] == pre[k]);
            assert forall|k: int| 0 <= k < i + 1 implies #[trigger] catalogue_view(r@)[k]
                == catalogue_view(v@.take(i as int + 1))[k] by {
                assert(catalogue_view(r@)[k] == (r@[k].0@, r@[k].1@));
                assert(catalogue_view(v@.take(i as int + 1))[k] == (
                    v@.take(i as int + 1)[k].0@,
                    v@.take(i as int + 1)[k].1@,
                ));
                assert(v@.take(i as int + 1)[k] == v@[k]);
                if k < i {
                    assert(catalogue_view(pre)[k] == (pre[k].0@, pre[k].1@));
                    assert(catalogue_view(v@.take(i as int))[k] == (
                        v@.take(i as int)[k].0@,
                        v@.take(i as int)[k].1@,
                    ));
                    assert(v@.take(i as int)[k] == v@[k]);
                }
            }
            assert(catalogue_view(r@) =~= catalogue_view(v@.take(i as int + 1)));
        }
        i = i + 1;
    }
    proof {
        assert(v@.take(v@.len() as int) =~= v@);
    }
    r
}

/// The name, listing and stamp of a cache entry, by characters and models.
pub open spec fn entry_model(e: (String, CacheEntry)) -> (
    Seq<char>,
    Seq<(Seq<char>, ManifestV)>,
    u64,
) {
    (e.0@, catalogue_view(e.1.versions@), e.1.timestamp)
}

/// Whether an entry with this model stands among the first `bound` of `s`.
pub open spec fn entry_among(
    e: (String, CacheEntry),
    s: Seq<(String, CacheEntry)>,
    bound: int,
) -> bool {
    exists|k: int| 0 <= k < bound && entry_model(e) == entry_model(#[trigger] s[k])
}

/// A whole registry document for one package.
pub struct RegistryPackage {
    pub name: String,
    pub versions: Vec<(String, PackageVersion)>,
    pub dist_tags: Vec<(String, String)>,
}

/// A manifest under its raw version string.
pub struct VersionedPackage(pub PackageVersion);

/// The older wire shape of a manifest, kept for the plain fetch path.
pub struct NpmPackage {
    pub name: String,
    pub version: String,
    pub description: Option<String>,
    pub dist: Dist,
    pub dependencies: Option<Vec<(String, String)>>,
    pub dev_dependencies: Option<Vec<(String, String)>>,
    pub peer_dependencies: Option<Vec<(String, String)>>,
    pub optional_dependencies: Option<Vec<(String, String)>>,
}

/// Distribution facts in the older wire shape.
pub struct Dist {
    pub tarball: String,
    pub integrity: String,
    pub shasum: String,
}

/// How long a cached catalogue stays fresh.
pub const CACHE_TTL_SECS: u64 = 300;

/// Above this many entries an insert prunes the expired ones.
pub const CACHE_CAP: usize = 50;

/// A cached catalogue with the moment it was fetched.
pub struct CacheEntry {
    pub versions: Vec<(String, PackageVersion)>,
    pub timestamp: u64,
}

impl CacheEntry {
    /// Whether the entry is older than `ttl_secs` at time `now`.
    pub open spec fn spec_expired(&self, now: u64, ttl_secs: u64) -> bool {
        now as int - self.timestamp as int > ttl_secs as int
    }

    /// Reports expiry, as `spec_expired` defines it.
    pub fn is_expired(&self, now: u64, ttl_secs: u64) -> (r: bool)
        ensures
            r == self.spec_expired(now, ttl_secs),
    {
        if now >= self.timestamp {
            now - self.timestamp > ttl_secs
        } else {
            false
        }
    }
}

impl Clone for CacheEntry {
    /// The copy lists the same catalogue at the same moment.
    fn clone(&self) -> (r: CacheEntry)
        ensures
            catalogue_view(r.versions@) == catalogue_view(self.versions@),
            r.timestamp == self.timestamp,
    {
        CacheEntry { versions: clone_catalogue(&self.versions), timestamp: self.timestamp }
    }
}

/// Index of the first cache entry named `name`, if any.
pub open spec fn cache_index(s: Seq<(String, CacheEntry)>, name: Seq<char>) -> Option<int>
    decreases s.len(),
{
    if s.len() == 0 {
        None
    } else if s.first().0@ == name {
        Some(0)
    } else {
        match cache_index(s.drop_first(), name) {
            None => None,
            Some(i) => Some(i + 1),
        }
    }
}

/// What `cache_index` returns: the first entry under the name, or a
/// guarantee that none carries it.
pub proof fn lemma_cache_index(s: Seq<(String, CacheEntry)>, name: Seq<char>)
    ensures
        match cache_index(s, name) {
            Some(i) => 0 <= i < s.len() && s[i].0@ == name && forall|k: int|
                0 <= k < i ==> (#[trigger] s[k]).0@ != name,
            None => forall|k: int| 0 <= k < s.len() ==> (#[trigger] s[k]).0@ != name,
        },
    decreases s.len(),
{
    if s.len() > 0 && s.first().0@ != name {
        lemma_cache_index(s.drop_first(), name);
        assert(forall|k: int| 1 <= k < s.len() ==> #[trigger] s[k] == s.drop_first()[k - 1]);
    }
}

/// A scan that stopped at the first entry under the name computed
/// `cache_index`.
pub proof fn lemma_cache_index_at(s: Seq<(String, CacheEntry)>, name: Seq<char>, i: int)
    requires
        0 <= i < s.len(),
        s[i].0@ == name,
        forall|k: int| 0 <= k < i ==> (#[trigger] s[k]).0@ != name,
    ensures
        cache_index(s, name) == Some(i),
{
    lemma_cache_index(s, name);
    match cache_index(s, name) {
        Some(j) => {
            if j < i {
                assert(s[j].0@ == name);
            } else if i < j {
                assert(s[i].0@ != name);
            }
        },
        None => {
            assert(s[i].0@ != name);
        },
    }
}

/// The process-wide catalogue cache: one entry per package name, each
/// expiring `CACHE_TTL_SECS` after its fetch.
pub struct PackageCache {
    pub entries: Vec<(String, CacheEntry)>,
}

impl PackageCache {
    /// Entry names are pairwise distinct.
    pub open spec fn wf(&self) -> bool {
        forall|i: int, j: int|
            0 <= i < j < self.entries@.len() ==> (#[trigger] self.entries@[i]).0@ != (
            #[trigger] self.entries@[j]).0@
    }

    /// An empty cache.
    pub fn new() -> (r: PackageCache)
        ensures
            r.entries@.len() == 0,
            r.wf(),
    {
        PackageCache { entries: Vec::new() }
    }

    /// A fresh catalogue for `name`, if one is cached: the stored listing,
    /// copied. `None` when the name is absent or its entry has expired.
    pub fn lookup(&self, name: &str, now: u64) -> (r: Option<Vec<(String, PackageVersion)>>)
        ensures
            match r {
                Some(v) => {
                    let idx = cache_index(self.entries@, name@);
                    idx is Some && !self.entries@[idx->0].1.spec_expired(now, CACHE_TTL_SECS)
                        && catalogue_view(v@) == catalogue_view(
                        self.entries@[idx->0].1.versions@,
                    )
                },
                None => {
                    let idx = cache_index(self.entries@, name@);
                    idx is None || self.entries@[idx->0].1.spec_expired(now, CACHE_TTL_SECS)
                },
            },
    {
        let n = self.entries.len();
        let mut i: usize = 0;
        while i < n
            invariant
                0 <= i <= n,
                n == self.entries@.len(),
                forall|k: int| 0 <= k < i ==> (#[trigger] self.entries@[k]).0@ != name@,
            decreases n - i,
        {
            if crate::semver::str_eq(self.entries[i].0.as_str(), name) {
                proof {
                    lemma_cache_index_at(self.entries@, name@, i as int);
                }
                if self.entries[i].1.is_expired(now, CACHE_TTL_SECS) {
                    return None;
                }
                return Some(clone_catalogue(&self.entries[i].1.versions));
            }
            i = i + 1;
        }
        proof {
            lemma_cache_index(self.entries@, name@);
        }
        None
    }

    /// Records a catalogue for `name` at time `now`, replacing any previous
    /// entry; above `CACHE_CAP` entries the expired ones are pruned first.
    /// Afterwards the name is cached, fresh, with exactly this listing.
    pub fn insert(&mut self, name: String, versions: Vec<(String, PackageVersion)>, now: u64)
        requires
            old(self).wf(),
        ensures
            final(self).wf(),
            ({
                let idx = cache_index(final(self).entries@, name@);
                idx is Some && final(self).entries@[idx->0].1.timestamp == now && catalogue_view(
                    final(self).entries@[idx->0].1.versions@,
                ) == catalogue_view(versions@)
            }),
            forall|e: int|
                0 <= e < old(self).entries@.len() && (#[trigger] old(self).entries@[e]).0@
                    != name@ && !old(self).entries@[e].1.spec_expired(now, CACHE_TTL_SECS)
                    ==> exists|j: int|
                    0 <= j < final(self).entries@.len() && entry_model(
                        #[trigger] final(self).entries@[j],
                    ) == entry_model(old(self).entries@[e]),
            old(self).entries@.len() > CACHE_CAP ==> forall|j: int|
                0 <= j < final(self).entries@.len() ==> !(#[trigger] final(self).entries@[j]).1.spec_expired(now, CACHE_TTL_SECS),
    {
        if self.entries.len() > CACHE_CAP {
            self.prune(now);
        }
        let ghost mid = self.entries@;
        proof {
            assert forall|e: int|
                0 <= e < old(self).entries@.len() && !(#[trigger] old(self).entries@[e]).1.spec_expired(
                    now,
                    CACHE_TTL_SECS,
                ) implies exists|j: int|
                0 <= j < mid.len() && entry_model(#[trigger] mid[j]) == entry_model(
                    old(self).entries@[e],
                ) by {
                if old(self).entries@.len() <= CACHE_CAP {
                    assert(entry_model(mid[e]) == entry_model(old(self).entries@[e]));
                }
            }
        }
        let n = self.entries.len();
        let mut i: usize = 0;
        while i < n
            invariant
                0 <= i <= n,
                n == self.entries@.len(),
                self.wf(),
                self.entries@ == mid,
                forall|k: int| 0 <= k < i ==> (#[trigger] self.entries@[k]).0@ != name@,
                forall|e: int|
                    0 <= e < old(self).entries@.len() && !(#[trigger] old(self).entries@[e]).1.spec_expired(
                        now,
                        CACHE_TTL_SECS,
                    ) ==> exists|j: int|
                        0 <= j < mid.len() && entry_model(#[trigger] mid[j]) == entry_model(
                            old(self).entries@[e],
                        ),
                old(self).entries@.len() > CACHE_CAP ==> forall|j: int|
                    0 <= j < mid.len() ==> !(#[trigger] mid[j]).1.spec_expired(
                        now,
                        CACHE_TTL_SECS,
                    ),
            decreases n - i,
        {
            if crate::semver::str_eq(self.entries[i].0.as_str(), name.as_str()) {
                let entry = CacheEntry { versions, timestamp: now };
                self.entries.set(i, (name, entry));
                proof {
                    assert forall|a: int, b: int|
                        0 <= a < b < self.entries@.len() implies (#[trigger] self.entries@[a]).0@
                        != (#[trigger] self.entries@[b]).0@ by {}
                    lemma_cache_index_at(self.entries@, self.entries@[i as int].0@, i as int);
                    assert forall|e: int|
                        0 <= e < old(self).entries@.len() && (#[trigger] old(self).entries@[e]).0@ != name@
                            && !old(self).entries@[e].1.spec_expired(now, CACHE_TTL_SECS) implies exists|
                        j: int,
                    |
                        0 <= j < self.entries@.len() && entry_model(
                            #[trigger] self.entries@[j],
                        ) == entry_model(old(self).entries@[e]) by {
                        let j0 = choose|j: int|
                            0 <= j < mid.len() && entry_model(#[trigger] mid[j]) == entry_model(
                                old(self).entries@[e],
                            );
                        assert(mid[j0].0@ == old(self).entries@[e].0@);
                        assert(j0 != i);
                        assert(entry_model(self.entries@[j0]) == entry_model(old(self).entries@[e]));
                    }
                    if old(self).entries@.len() > CACHE_CAP {
                        assert forall|j: int|
                            0 <= j < self.entries@.len() implies !(
                        #[trigger] self.entries@[j]).1.spec_expired(now, CACHE_TTL_SECS) by {
                            if j != i {
                                assert(self.entries@[j] == mid[j]);
                            }
                        }
                    }
                }
                return ;
            }
            i = i + 1;
        }
        let entry = CacheEntry { versions, timestamp: now };
        let ghost pre = self.entries@;
        self.entries.push((name, entry));
        proof {
            assert(forall|k: int| 0 <= k < pre.len() ==> #[trigger] self.entries@[k] == pre[k]);
            lemma_cache_index_at(self.entries@, self.entries@[pre.len() as int].0@, pre.len() as int);
            assert forall|e: int|
                0 <= e < old(self).entries@.len() && (#[trigger] old(self).entries@[e]).0@ != name@
                    && !old(self).entries@[e].1.spec_expired(now, CACHE_TTL_SECS) implies exists|j: int|
                0 <= j < self.entries@.len() && entry_model(#[trigger] self.entries@[j])
                    == entry_model(old(self).entries@[e]) by {
                let j0 = choose|j: int|
                    0 <= j < mid.len() && entry_model(#[trigger] mid[j]) == entry_model(
                        old(self).entries@[e],
                    );
                assert(entry_model(self.entries@[j0]) == entry_model(old(self).entries@[e]));
            }
            if old(self).entries@.len() > CACHE_CAP {
                assert forall|j: int|
                    0 <= j < self.entries@.len() implies !(
                #[trigger] self.entries@[j]).1.spec_expired(now, CACHE_TTL_SECS) by {
                    if j < pre.len() {
                        assert(self.entries@[j] == mid[j]);
                    }
                }
            }
        }
    }

    /// Drops every expired entry; the fresh ones survive unchanged.
    pub fn prune(&mut self, now: u64)
        requires
            old(self).wf(),
        ensures
            final(self).wf(),
            forall|j: int|
                0 <= j < final(self).entries@.len()
                    ==> !(#[trigger] final(self).entries@[j]).1.spec_expired(now, CACHE_TTL_SECS),
            forall|j: int|
                0 <= j < final(self).entries@.len() ==> entry_among(
                    #[trigger] final(self).entries@[j],
                    old(self).entries@,
                    old(self).entries@.len() as int,
                ),
            forall|k: int|
                0 <= k < old(self).entries@.len() && !(#[trigger] old(self).entries@[k]).1.spec_expired(now, CACHE_TTL_SECS) ==> exists|j: int|
                    0 <= j < final(self).entries@.len() && entry_model(
                        #[trigger] final(self).entries@[j],
                    ) == entry_model(old(self).entries@[k]),
    {
        let mut kept: Vec<(String, CacheEntry)> = Vec::new();
        let n = self.entries.len();
        let mut i: usize = 0;
        while i < n
            invariant
                0 <= i <= n,
                n == self.entries@.len(),
                old(self).entries@ == self.entries@,
                old(self).wf(),
                forall|j: int|
                    0 <= j < kept@.len() ==> !(#[trigger] kept@[j]).1.spec_expired(
                        now,
                        CACHE_TTL_SECS,
                    ),
                forall|j: int|
                    0 <= j < kept@.len() ==> entry_among(
                        #[trigger] kept@[j],
                        self.entries@,
                        i as int,
                    ),
                forall|k: int|
                    0 <= k < i && !(#[trigger] self.entries@[k]).1.spec_expired(
                        now,
                        CACHE_TTL_SECS,
                    ) ==> exists|j: int|
                        0 <= j < kept@.len() && entry_model(#[trigger] kept@[j]) == entry_model(
                            self.entries@[k],
                        ),
                forall|a: int, b: int|
                    0 <= a < b < kept@.len() ==> (#[trigger] kept@[a]).0@ != (
                    #[trigger] kept@[b]).0@,
            decreases n - i,
        {
            if !self.entries[i].1.is_expired(now, CACHE_TTL_SECS) {
                let e = &self.entries[i];
                let ghost prek = kept@;
                kept.push((e.0.clone(), e.1.clone()));
                proof {
                    assert(forall|k: int| 0 <= k < prek.len() ==> #[trigger] kept@[k] == prek[k]);
                    assert(entry_model(kept@[prek.len() as int]) == entry_model(
                        self.entries@[i as int],
                    ));
                    assert(entry_among(kept@[prek.len() as int], self.entries@, i as int + 1));
                    assert forall|j: int| 0 <= j < kept@.len() implies entry_among(
                        #[trigger] kept@[j],
                        self.entries@,
                        i as int + 1,
                    ) by {
                        if j < prek.len() {
                            assert(entry_among(prek[j], self.entries@, i as int));
                            let k = choose|k: int|
                                0 <= k < i as int && entry_model(prek[j]) == entry_model(
                                    #[trigger] self.entries@[k],
                                );
                            assert(entry_model(kept@[j]) == entry_model(self.entries@[k]));
                        }
                    }
                    assert forall|a: int, b: int|
                        0 <= a < b < kept@.len() implies (#[trigger] kept@[a]).0@ != (
                        #[trigger] kept@[b]).0@ by {
                        if b == kept@.len() - 1 {
                            assert(entry_among(kept@[a], self.entries@, i as int));
                            let k = choose|k: int|
                                0 <= k < i as int && entry_model(kept@[a]) == entry_model(
                                    #[trigger] self.entries@[k],
                                );
                            assert(kept@[a].0@ == self.entries@[k].0@);
                            assert(self.entries@[k].0@ != self.entries@[i as int].0@);
                            assert(kept@[b].0@ == self.entries@[i as int].0@);
                        }
                    }
                    assert forall|k: int|
                        0 <= k < i + 1 && !(#[trigger] self.entries@[k]).1.spec_expired(
                            now,
                            CACHE_TTL_SECS,
                        ) implies exists|j: int|
                        0 <= j < kept@.len() && entry_model(#[trigger] kept@[j]) == entry_model(
                            self.entries@[k],
                        ) by {
                        if k < i {
                            let j0 = choose|j: int|
                                0 <= j < prek.len() && entry_model(#[trigger] prek[j])
                                    == entry_model(self.entries@[k]);
                            assert(entry_model(kept@[j0]) == entry_model(self.entries@[k]));
                        } else {
                            assert(entry_model(kept@[prek.len() as int]) == entry_model(
                                self.entries@[i as int],
                            ));
                        }
                    }
                }
            } else {
                proof {
                    assert(self.entries@[i as int].1.spec_expired(now, CACHE_TTL_SECS));
                }
            }
            i = i + 1;
        }
        proof {
            assert forall|k: int|
                0 <= k < old(self).entries@.len() && !(#[trigger] old(self).entries@[k]).1.spec_expired(now, CACHE_TTL_SECS) implies exists|j: int|
                0 <= j < kept@.len() && entry_model(#[trigger] kept@[j]) == entry_model(
                    old(self).entries@[k],
                ) by {
                assert(self.entries@[k] == old(self).entries@[k]);
                assert(!self.entries@[k].1.spec_expired(now, CACHE_TTL_SECS));
            }
        }
        let ghost keptg = kept@;
        self.entries = kept;
        proof {
            assert forall|k: int|
                0 <= k < old(self).entries@.len() && !(#[trigger] old(self).entries@[k]).1.spec_expired(now, CACHE_TTL_SECS) implies exists|j: int|
                0 <= j < self.entries@.len() && entry_model(#[trigger] self.entries@[j])
                    == entry_model(old(self).entries@[k]) by {
                let j0 = choose|j: int|
                    0 <= j < keptg.len() && entry_model(#[trigger] keptg[j]) == entry_model(
                        old(self).entries@[k],
                    );
                assert(entry_model(self.entries@[j0]) == entry_model(old(self).entries@[k]));
            }
        }
    }
}

} // verus!
