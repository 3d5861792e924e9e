//! Entries of apt sources lists as this library reads them: the URL and suite with the
//! architecture filled in, where the index files of an entry live, where an entry is fetched
//! from, and the grouping of entries that share one set of index files into mirror sources.
use crate::text::{
    ends_with_char, replace_all, replace_all_in, starts_with, str_ends_with_char, str_starts_with,
    string_of, trim_end_slashes, trim_end_slashes_of,
};
use apt_auth_config::{AuthConfig, Authenticator};
use std::collections::HashMap;
use vstd::prelude::*;

verus! {

/// The key of a source: the key text itself, or the paths of the key files.
pub enum Signature {
    KeyBlock(String),
    KeyPath(Vec<String>),
}

/// One entry of an apt sources list, with the fields that its parser fills in.
pub struct SourceEntry {
    /// Whether the entry is enabled.
    pub enabled: bool,
    /// Whether this is a source (`deb-src`) entry.
    pub source: bool,
    /// The options given in brackets, each with its values.
    pub options: Vec<(String, Vec<String>)>,
    /// The URL of the repository.
    pub url: String,
    /// The suite, such as `stable`, or a path for a flat repository.
    pub suite: String,
    /// The components; none for a flat repository.
    pub components: Vec<String>,
    /// The architectures, when given.
    pub archs: Option<Vec<String>>,
    /// The key the repository is signed by, when given.
    pub signed_by: Option<Signature>,
    /// Whether the repository is trusted without a signature.
    pub trusted: bool,
    /// Whether the entry comes from a deb822 `.sources` file.
    pub is_deb822: bool,
}

/// Where the index files of a non-flat entry live: the URL without its trailing slashes, then
/// `/dists/` and the suite.
pub open spec fn source_dist_path(url: Seq<char>, suite: Seq<char>) -> Seq<char> {
    trim_end_slashes(url) + "/dists/"@ + suite
}

impl SourceEntry {
    /// The URL without its trailing slashes.
    pub fn url(&self) -> (r: String)
        ensures
            r@ == trim_end_slashes(self.url@),
    {
        trim_end_slashes_of(self.url.as_str())
    }

    /// The root URL of the entry's dist path: the URL without its trailing slashes, then
    /// `/dists/` and the suite.
    pub fn dist_path(&self) -> (r: String)
        ensures
            r@ == source_dist_path(self.url@, self.suite@),
    {
        let mut r = self.url();
        r.append("/dists/");
        r.append(self.suite.as_str());
        r
    }
}

/// How an entry's files are fetched.
#[derive(PartialEq, Eq, Structural, Debug, Copy, Clone)]
pub enum OmaSourceEntryFrom {
    Http,
    Local,
}

/// Errors of the refresh logic.
pub enum RefreshError {
    /// The URL's protocol is neither HTTP(S) nor a local file.
    UnsupportedProtocol(String),
    /// The URL could not be parsed.
    InvalidUrl(String),
    /// No sources list entry is configured.
    SourceListsEmpty,
}

/// A sources list entry together with the architecture that `$(ARCH)` stands for in it.
pub struct OmaSourceEntry {
    source: SourceEntry,
    arch: String,
}

/// `s` with `$(ARCH)` replaced by the architecture.
pub open spec fn with_arch(s: Seq<char>, arch: Seq<char>) -> Seq<char> {
    replace_all(s, "$(ARCH)"@, arch)
}

/// Where the index files of an entry live, given its URL and suite (with the architecture
/// filled in), whether it is flat, and the dist path of its sources list entry.
pub open spec fn dist_path_of(url: Seq<char>, suite: Seq<char>, flat: bool, source_dist: Seq<char>) -> Seq<char> {
    if flat {
        if suite == "/"@ {
            if !ends_with_char(url, '/') {
                url + suite
            } else {
                url
            }
        } else if ends_with_char(url, '/') {
            url + suite
        } else {
            url + "/"@ + suite
        }
    } else {
        source_dist
    }
}

/// The human-readable location: the host (or, without one, the path), `:`, the suite, and the
/// file name after a space when there is one.
pub open spec fn human_location(location: Seq<char>, suite: Seq<char>, file_name: Option<Seq<char>>) -> Seq<char> {
    location + ":"@ + suite + match file_name {
        Some(f) => " "@ + f,
        None => Seq::empty(),
    }
}

/// The view of an optional string.
pub open spec fn opt_str(s: Option<&str>) -> Option<Seq<char>> {
    match s {
        Some(t) => Some(t@),
        None => None,
    }
}

/// The view of an optional string.
pub open spec fn opt_string(s: Option<String>) -> Option<Seq<char>> {
    match s {
        Some(t) => Some(t@),
        None => None,
    }
}

/// What `url::Url::parse` gives for a text: `None` when it is no URL, otherwise the URL's host
/// (when it has one) and its path.
pub uninterp spec fn url_host_and_path(url: Seq<char>) -> Option<(Option<Seq<char>>, Seq<char>)>;

/// Calls `url::Url::parse`, and reads the host (`Url::host_str`) and path (`Url::path`) of a
/// URL that parses. The result is `url_host_and_path` of the text; nothing else is claimed.
#[verifier::external_body]
fn parse_url_host_and_path(url: &str) -> (r: Option<(Option<String>, String)>)
    ensures
        match r {
            Some(p) => url_host_and_path(url@) == Some((opt_string(p.0), p.1@)),
            None => url_host_and_path(url@) is None,
        },
{
    match url::Url::parse(url) {
        Ok(u) => Some((u.host_str().map(|h| h.to_string()), u.path().to_string())),
        Err(_) => None,
    }
}

/// The human-readable download location of `url` from what parsing it gave: the host, or the
/// path when the URL has no host, then `:` and the suite, then a space and `file_name` when
/// given; `InvalidUrl(url)` when it did not parse.
pub fn human_download_url(
    url: &str,
    parsed: Option<(Option<String>, String)>,
    suite: &str,
    file_name: Option<&str>,
) -> (r: Result<String, RefreshError>)
    ensures
        match parsed {
            None => r matches Err(RefreshError::InvalidUrl(u)) && u@ == url@,
            Some(p) => r matches Ok(s) && s@ == human_location(
                match p.0 {
                    Some(h) => h@,
                    None => p.1@,
                },
                suite@,
                opt_str(file_name),
            ),
        },
{
    match parsed {
        None => Err(RefreshError::InvalidUrl(string_of(url))),
        Some((host, path)) => {
            let mut s = match host {
                Some(h) => h,
                None => path,
            };
            s.append(":");
            s.append(suite);
            match file_name {
                Some(f) => {
                    s.append(" ");
                    s.append(f);
                },
                None => {},
            }
            Ok(s)
        },
    }
}

impl OmaSourceEntry {
    /// The sources list entry.
    pub closed spec fn entry(&self) -> SourceEntry {
        self.source
    }

    /// The architecture that `$(ARCH)` stands for.
    pub closed spec fn arch_of(&self) -> Seq<char> {
        self.arch@
    }

    /// The entry's URL with the architecture filled in.
    pub open spec fn url_view(&self) -> Seq<char> {
        with_arch(self.entry().url@, self.arch_of())
    }

    /// The entry's suite with the architecture filled in.
    pub open spec fn suite_view(&self) -> Seq<char> {
        with_arch(self.entry().suite@, self.arch_of())
    }

    /// Whether the entry is flat: it has no components.
    pub open spec fn flat(&self) -> bool {
        self.entry().components@.len() == 0
    }

    /// Where the entry's index files live.
    pub open spec fn dist_path_view(&self) -> Seq<char> {
        dist_path_of(
            self.url_view(),
            self.suite_view(),
            self.flat(),
            source_dist_path(self.entry().url@, self.entry().suite@),
        )
    }

    /// The entry for `source`, with `arch` for `$(ARCH)`.
    pub fn new(source: SourceEntry, arch: &str) -> (r: Self)
        ensures
            r.entry() == source,
            r.arch_of() == arch@,
    {
        OmaSourceEntry { source, arch: string_of(arch) }
    }

    /// How the entry is fetched, from the start of its URL (without trailing slashes):
    /// `http...` is fetched over HTTP, `file...` locally; any other URL is refused.
    pub fn from(&self) -> (r: Result<OmaSourceEntryFrom, RefreshError>)
        ensures
            starts_with(trim_end_slashes(self.entry().url@), "http"@) ==> r == Ok::<
                OmaSourceEntryFrom,
                RefreshError,
            >(OmaSourceEntryFrom::Http),
            !starts_with(trim_end_slashes(self.entry().url@), "http"@) && starts_with(
                trim_end_slashes(self.entry().url@),
                "file"@,
            ) ==> r == Ok::<OmaSourceEntryFrom, RefreshError>(OmaSourceEntryFrom::Local),
            !starts_with(trim_end_slashes(self.entry().url@), "http"@) && !starts_with(
                trim_end_slashes(self.entry().url@),
                "file"@,
            ) ==> (r matches Err(RefreshError::UnsupportedProtocol(u)) && u@ == trim_end_slashes(
                self.entry().url@,
            )),
    {
        let url = self.source.url();
        if str_starts_with(url.as_str(), "http") {
            Ok(OmaSourceEntryFrom::Http)
        } else if str_starts_with(url.as_str(), "file") {
            Ok(OmaSourceEntryFrom::Local)
        } else {
            Err(RefreshError::UnsupportedProtocol(url))
        }
    }

    /// The components.
    pub fn components(&self) -> (r: &[String])
        ensures
            r@ == self.entry().components@,
    {
        self.source.components.as_slice()
    }

    /// The architectures, when given.
    pub fn archs(&self) -> (r: &Option<Vec<String>>)
        ensures
            *r == self.entry().archs,
    {
        &self.source.archs
    }

    /// Whether the repository is trusted without a signature.
    pub fn trusted(&self) -> (r: bool)
        ensures
            r == self.entry().trusted,
    {
        self.source.trusted
    }

    /// The key the repository is signed by, when given.
    pub fn signed_by(&self) -> (r: &Option<Signature>)
        ensures
            *r == self.entry().signed_by,
    {
        &self.source.signed_by
    }

    /// The URL with the architecture filled in.
    pub fn url(&self) -> (r: String)
        ensures
            r@ == self.url_view(),
    {
        proof {
            reveal_strlit("$(ARCH)");
        }
        replace_all_in(self.source.url.as_str(), "$(ARCH)", self.arch.as_str())
    }

    /// Whether the entry is flat: it has no components.
    pub fn is_flat(&self) -> (r: bool)
        ensures
            r == self.flat(),
    {
        self.source.components.len() == 0
    }

    /// The suite with the architecture filled in.
    pub fn suite(&self) -> (r: String)
        ensures
            r@ == self.suite_view(),
    {
        proof {
            reveal_strlit("$(ARCH)");
        }
        replace_all_in(self.source.suite.as_str(), "$(ARCH)", self.arch.as_str())
    }

    /// Whether this is a source (`deb-src`) entry.
    pub fn is_source(&self) -> (r: bool)
        ensures
            r == self.entry().source,
    {
        self.source.source
    }

    /// Where the entry's index files live. For a flat entry: with suite `/`, the URL with a
    /// `/` added unless it ends with one; otherwise the URL and the suite, joined by a `/` unless
    /// the URL ends with one. For any other entry, the dist path of its sources list entry.
    pub fn dist_path(&self) -> (r: String)
        ensures
            r@ == self.dist_path_view(),
    {
        let suite = self.suite();
        let mut url = self.url();
        if self.is_flat() {
            let slash = string_of("/");
            if suite == slash {
                if !str_ends_with_char(url.as_str(), '/') {
                    url.append(suite.as_str());
                    url
                } else {
                    url
                }
            } else if str_ends_with_char(url.as_str(), '/') {
                url.append(suite.as_str());
                url
            } else {
                url.append("/");
                url.append(suite.as_str());
                url
            }
        } else {
            self.source.dist_path()
        }
    }

    /// The human-readable download location of the entry: the host of its URL (or the path, when
    /// the URL has no host), `:`, the suite, and `file_name` after a space when given;
    /// `InvalidUrl` with the URL when the URL does not parse.
    pub fn get_human_download_url(&self, file_name: Option<&str>) -> (r: Result<String, RefreshError>)
        ensures
            match url_host_and_path(self.url_view()) {
                None => r matches Err(RefreshError::InvalidUrl(u)) && u@ == self.url_view(),
                Some(p) => r matches Ok(s) && s@ == human_location(
                    match p.0 {
                        Some(h) => h,
                        None => p.1,
                    },
                    self.suite_view(),
                    opt_str(file_name),
                ),
            },
    {
        let url = self.url();
        let parsed = parse_url_host_and_path(url.as_str());
        let suite = self.suite();
        human_download_url(url.as_str(), parsed, suite.as_str(), file_name)
    }
}


#[verifier::external_type_specification]
#[verifier::external_body]
pub struct ExAuthConfig(AuthConfig);

#[verifier::external_type_specification]
#[verifier::external_body]
pub struct ExAuthenticator(Authenticator);

/// What `AuthConfig::find_str` gives for a configuration and a URL: the credentials of the best
/// matching entry, if any.
pub uninterp spec fn auth_config_find(config: AuthConfig, url: Seq<char>) -> Option<Authenticator>;

/// Calls `AuthConfig::find_str`: the credentials that the configuration holds for `url`. The
/// result is `auth_config_find` of the configuration and the URL; nothing else is claimed.
#[verifier::external_body]
fn find_auth<'b>(config: &'b AuthConfig, url: &str) -> (r: Option<&'b Authenticator>)
    ensures
        match r {
            Some(a) => auth_config_find(*config, url@) == Some(*a),
            None => auth_config_find(*config, url@) is None,
        },
{
    config.find_str(url)
}

/// A table from database names to the positions of the entries that use them.
pub type GroupTable = HashMap<String, Vec<usize>, ahash::RandomState>;

/// The groups of a group table: database name to the positions of the entries that use it.
pub uninterp spec fn group_table_contents(m: GroupTable) -> Map<Seq<char>, Seq<usize>>;

/// Calls `HashMap::with_hasher` with a new `ahash::RandomState`: a table with no group.
#[verifier::external_body]
fn group_table_new() -> (r: GroupTable)
    ensures
        group_table_contents(r).dom() == Set::<Seq<char>>::empty(),
{
    HashMap::with_hasher(ahash::RandomState::new())
}

/// Calls `HashMap::remove`: the group of `key` leaves the table and is returned, if there is one.
#[verifier::external_body]
fn group_table_remove(m: &mut GroupTable, key: &str) -> (r: Option<Vec<usize>>)
    ensures
        group_table_contents(*final(m)) == group_table_contents(*old(m)).remove(key@),
        match r {
            Some(v) => group_table_contents(*old(m)).contains_key(key@) && v@ == group_table_contents(*old(m))[key@],
            None => !group_table_contents(*old(m)).contains_key(key@),
        },
{
    m.remove(key)
}

/// Calls `HashMap::insert`: `key` gets the group `value`.
#[verifier::external_body]
fn group_table_insert(m: &mut GroupTable, key: String, value: Vec<usize>) -> (r: Option<Vec<usize>>)
    ensures
        group_table_contents(*final(m)) == group_table_contents(*old(m)).insert(key@, value@),
        match r {
            Some(v) => group_table_contents(*old(m)).contains_key(key@) && v@ == group_table_contents(*old(m))[key@],
            None => !group_table_contents(*old(m)).contains_key(key@),
        },
{
    m.insert(key, value)
}

/// Calls `HashMap::into_iter`, collecting the groups: each (key, group) of the table once, in
/// the table's own order, which nothing here fixes.
#[verifier::external_body]
fn group_table_into_vec(m: GroupTable) -> (r: Vec<(String, Vec<usize>)>)
    ensures
        r@.len() == group_table_contents(m).dom().len(),
        forall|i: int| 0 <= i < r@.len() ==> group_table_contents(m).contains_key(#[trigger] r@[i].0@)
            && group_table_contents(m)[r@[i].0@] == r@[i].1@,
        forall|k: Seq<char>| group_table_contents(m).contains_key(k) ==> exists|i: int| 0 <= i < r@.len() && #[trigger] r@[i].0@ == k,
        forall|i: int, j: int| 0 <= i < r@.len() && 0 <= j < r@.len() && i != j ==> #[trigger] r@[i].0@ != #[trigger] r@[j].0@,
{
    m.into_iter().collect()
}

/// The positions of the entries grouped by their database name: each name maps to the
/// positions, in increasing order, of the entries that have it.
pub open spec fn groups_of(names: Seq<Seq<char>>) -> Map<Seq<char>, Seq<usize>>
    decreases names.len(),
{
    if names.len() == 0 {
        Map::empty()
    } else {
        let prev = groups_of(names.drop_last());
        let k = names.last();
        let j = (names.len() - 1) as usize;
        prev.insert(
            k,
            if prev.contains_key(k) {
                prev[k].push(j)
            } else {
                seq![j]
            },
        )
    }
}

/// Grouping by database name is a partition of the entries: each group is non-empty, holds the
/// positions of entries with its name in increasing order, and each entry is in the group of
/// its name.
pub proof fn law_groups_partition_entries(names: Seq<Seq<char>>)
    requires
        names.len() <= usize::MAX,
    ensures
        forall|k: Seq<char>| #[trigger] groups_of(names).contains_key(k) ==> groups_of(names)[k].len() > 0,
        forall|k: Seq<char>, t: int|
            groups_of(names).contains_key(k) && 0 <= t < groups_of(names)[k].len() ==> #[trigger] groups_of(names)[k][t]
                < names.len() && names[groups_of(names)[k][t] as int] == k,
        forall|k: Seq<char>, t1: int, t2: int|
            groups_of(names).contains_key(k) && 0 <= t1 < t2 < groups_of(names)[k].len() ==> #[trigger] groups_of(names)[k][t1]
                < #[trigger] groups_of(names)[k][t2],
        forall|j: int|
            0 <= j < names.len() ==> #[trigger] groups_of(names).contains_key(names[j]) && groups_of(names)[names[j]].contains(
                j as usize,
            ),
        forall|k: Seq<char>| #[trigger]
            groups_of(names).contains_key(k) ==> exists|j: int| 0 <= j < names.len() && names[j] == k,
    decreases names.len(),
{
    if names.len() > 0 {
        let init = names.drop_last();
        law_groups_partition_entries(init);
        let prev = groups_of(init);
        let g = groups_of(names);
        let last = names.last();
        let n = (names.len() - 1) as usize;
        assert forall|k: Seq<char>, t: int|
            g.contains_key(k) && 0 <= t < g[k].len() implies #[trigger] g[k][t] < names.len()
                && names[g[k][t] as int] == k by {
            if k != last {
                assert(g[k][t] == prev[k][t]);
                assert(init[prev[k][t] as int] == k);
            } else if prev.contains_key(k) {
                if t < prev[k].len() {
                    assert(g[k][t] == prev[k][t]);
                    assert(init[prev[k][t] as int] == k);
                } else {
                    assert(g[k][t] == n);
                }
            } else {
                assert(g[k] == seq![n]);
                assert(g[k][t] == n);
            }
        }
        assert forall|k: Seq<char>, t1: int, t2: int|
            g.contains_key(k) && 0 <= t1 < t2 < g[k].len() implies #[trigger] g[k][t1] < #[trigger] g[k][t2] by {
            if k == last && prev.contains_key(k) && t2 == prev[k].len() {
                assert(g[k][t1] == prev[k][t1]);
                assert(g[k][t2] == n);
                assert(prev[k][t1] < init.len());
            } else if k == last && prev.contains_key(k) {
                assert(prev[k][t1] < prev[k][t2]);
            } else if k != last {
                assert(prev[k][t1] < prev[k][t2]);
            }
        }
        assert forall|j: int| 0 <= j < names.len() implies #[trigger] g.contains_key(names[j]) && g[names[j]].contains(
            j as usize,
        ) by {
            if j < init.len() {
                assert(init[j] == names[j]);
                assert(groups_of(init).contains_key(init[j]));
                assert(prev.contains_key(init[j]) && prev[init[j]].contains(j as usize));
                let t = choose|t: int| 0 <= t < prev[init[j]].len() && prev[init[j]][t] == j as usize;
                assert(g[names[j]][t] == j as usize);
            } else {
                assert(g[names[j]].last() == j as usize);
            }
        }
        assert forall|k: Seq<char>| #[trigger] g.contains_key(k) implies exists|j: int| 0 <= j < names.len() && names[j] == k by {
            if k == last {
                assert(names[names.len() - 1] == k);
            } else {
                assert(prev.contains_key(k));
                let j = choose|j: int| 0 <= j < init.len() && init[j] == k;
                assert(names[j] == k);
            }
        }
    }
}

/// Entries that share their index files, fetched together.
pub struct MirrorSource<'a, 'b> {
    pub sources: Vec<&'a OmaSourceEntry>,
    release_file_name: Option<String>,
    auth: Option<&'b Authenticator>,
}

/// All mirror sources of a sources list.
pub struct MirrorSources<'a, 'b>(pub Vec<MirrorSource<'a, 'b>>);

/// The views of the database names of the entries (an error counts as the empty name).
pub open spec fn name_views(names: Seq<Result<String, RefreshError>>) -> Seq<Seq<char>> {
    names.map_values(
        |r: Result<String, RefreshError>|
            match r {
                Ok(s) => s@,
                Err(_) => Seq::empty(),
            },
    )
}

impl<'a, 'b> MirrorSource<'a, 'b> {
    /// The entries of the mirror source, in order.
    pub closed spec fn members(&self) -> Seq<OmaSourceEntry> {
        self.sources@.map_values(|e: &OmaSourceEntry| *e)
    }

    /// The name of the release file, once it is set.
    pub closed spec fn release_file(&self) -> Option<Seq<char>> {
        opt_string(self.release_file_name)
    }

    /// The credentials for the mirror, if any.
    pub closed spec fn credentials(&self) -> Option<&'b Authenticator> {
        self.auth
    }

    /// The mirror source holds the entries at `positions` of `list`, in that order, has no
    /// release file name yet, and holds what `auth_config` gives for the URL of its first entry.
    pub open spec fn built_from(
        &self,
        positions: Seq<usize>,
        list: Seq<OmaSourceEntry>,
        auth_config: Option<&AuthConfig>,
    ) -> bool {
        &&& self.members().len() == positions.len()
        &&& forall|t: int| 0 <= t < positions.len() ==> self.members()[t] == list[#[trigger] positions[t] as int]
        &&& self.release_file() is None
        &&& match auth_config {
            None => self.credentials() is None,
            Some(c) => match self.credentials() {
                Some(a) => auth_config_find(*c, self.members()[0].url_view()) == Some(*a),
                None => auth_config_find(*c, self.members()[0].url_view()) is None,
            },
        }
    }

    /// Records the name of the release file; it must not have been set before.
    pub fn set_release_file_name(&mut self, file_name: String)
        requires
            old(self).release_file() is None,
        ensures
            final(self).release_file() == Some(file_name@),
            final(self).members() == old(self).members(),
            final(self).credentials() == old(self).credentials(),
    {
        self.release_file_name = Some(file_name);
    }

    /// Where the index files of the first entry live.
    pub fn dist_path(&self) -> (r: String)
        requires
            self.members().len() > 0,
        ensures
            r@ == self.members()[0].dist_path_view(),
    {
        self.sources[0].dist_path()
    }

    /// The suite of the first entry, with the architecture filled in.
    pub fn suite(&self) -> (r: String)
        requires
            self.members().len() > 0,
        ensures
            r@ == self.members()[0].suite_view(),
    {
        self.sources[0].suite()
    }

    /// How the first entry is fetched.
    pub fn from(&self) -> (r: Result<OmaSourceEntryFrom, RefreshError>)
        requires
            self.members().len() > 0,
        ensures
            starts_with(trim_end_slashes(self.members()[0].entry().url@), "http"@) ==> r == Ok::<
                OmaSourceEntryFrom,
                RefreshError,
            >(OmaSourceEntryFrom::Http),
            !starts_with(trim_end_slashes(self.members()[0].entry().url@), "http"@) && starts_with(
                trim_end_slashes(self.members()[0].entry().url@),
                "file"@,
            ) ==> r == Ok::<OmaSourceEntryFrom, RefreshError>(OmaSourceEntryFrom::Local),
            !starts_with(trim_end_slashes(self.members()[0].entry().url@), "http"@) && !starts_with(
                trim_end_slashes(self.members()[0].entry().url@),
                "file"@,
            ) ==> (r matches Err(RefreshError::UnsupportedProtocol(u)) && u@ == trim_end_slashes(
                self.members()[0].entry().url@,
            )),
    {
        self.sources[0].from()
    }

    /// The human-readable download location of the first entry.
    pub fn get_human_download_url(&self, file_name: Option<&str>) -> (r: Result<String, RefreshError>)
        requires
            self.members().len() > 0,
        ensures
            match url_host_and_path(self.members()[0].url_view()) {
                None => r matches Err(RefreshError::InvalidUrl(u)) && u@ == self.members()[0].url_view(),
                Some(p) => r matches Ok(s) && s@ == human_location(
                    match p.0 {
                        Some(h) => h,
                        None => p.1,
                    },
                    self.members()[0].suite_view(),
                    opt_str(file_name),
                ),
            },
    {
        self.sources[0].get_human_download_url(file_name)
    }

    /// The key of the first entry that names one.
    pub fn signed_by(&self) -> (r: Option<&Signature>)
        ensures
            match r {
                Some(sig) => exists|i: int|
                    0 <= i < self.members().len() && self.members()[i].entry().signed_by == Some(*sig)
                        && forall|j: int| 0 <= j < i ==> #[trigger] self.members()[j].entry().signed_by is None,
                None => forall|j: int| 0 <= j < self.members().len() ==> #[trigger] self.members()[j].entry().signed_by is None,
            },
    {
        let mut i: usize = 0;
        while i < self.sources.len()
            invariant
                i <= self.members().len(),
                forall|j: int| 0 <= j < i ==> #[trigger] self.members()[j].entry().signed_by is None,
            decreases self.sources.len() - i,
        {
            proof {
                assert(self.members()[i as int] == *self.sources@[i as int]);
            }
            match self.sources[i].signed_by() {
                Some(sig) => {
                    return Some(sig);
                },
                None => {},
            }
            i = i + 1;
        }
        None
    }

    /// The URL of the first entry, with the architecture filled in.
    pub fn url(&self) -> (r: String)
        requires
            self.members().len() > 0,
        ensures
            r@ == self.members()[0].url_view(),
    {
        self.sources[0].url()
    }

    /// Whether the first entry is flat.
    pub fn is_flat(&self) -> (r: bool)
        requires
            self.members().len() > 0,
        ensures
            r == self.members()[0].flat(),
    {
        self.sources[0].is_flat()
    }

    /// Whether some entry is trusted without a signature.
    pub fn trusted(&self) -> (r: bool)
        ensures
            r == exists|i: int| 0 <= i < self.members().len() && #[trigger] self.members()[i].entry().trusted,
    {
        let mut i: usize = 0;
        while i < self.sources.len()
            invariant
                i <= self.members().len(),
                forall|j: int| 0 <= j < i ==> !#[trigger] self.members()[j].entry().trusted,
            decreases self.sources.len() - i,
        {
            proof {
                assert(self.members()[i as int] == *self.sources@[i as int]);
            }
            if self.sources[i].trusted() {
                return true;
            }
            i = i + 1;
        }
        false
    }

    /// The name of the release file, once it is set.
    pub fn file_name(&self) -> (r: Option<&str>)
        ensures
            opt_str(r) == self.release_file(),
    {
        match &self.release_file_name {
            Some(f) => Some(f.as_str()),
            None => None,
        }
    }

    /// The credentials for the mirror, if any.
    pub fn auth(&self) -> (r: Option<&'b Authenticator>)
        ensures
            r == self.credentials(),
    {
        self.auth
    }
}

/// Every entry has a database name.
pub open spec fn all_named(names: Seq<Result<String, RefreshError>>) -> bool {
    forall|i: int| 0 <= i < names.len() ==> #[trigger] names[i] is Ok
}

/// The entry at `i` is the first that has no database name.
pub open spec fn first_error_at(names: Seq<Result<String, RefreshError>>, i: int) -> bool {
    &&& 0 <= i < names.len()
    &&& names[i] is Err
    &&& forall|j: int| 0 <= j < i ==> #[trigger] names[j] is Ok
}

/// `source` is built from some group of `groups`.
pub open spec fn built_from_some_group<'a, 'b>(
    source: MirrorSource<'a, 'b>,
    groups: Map<Seq<char>, Seq<usize>>,
    list: Seq<OmaSourceEntry>,
    auth_config: Option<&AuthConfig>,
) -> bool {
    exists|k: Seq<char>| groups.contains_key(k) && #[trigger] source.built_from(groups[k], list, auth_config)
}

/// `sources` holds one mirror source per group of `groups`, each built from its group.
pub open spec fn grouped<'a, 'b>(
    sources: Seq<MirrorSource<'a, 'b>>,
    groups: Map<Seq<char>, Seq<usize>>,
    list: Seq<OmaSourceEntry>,
    auth_config: Option<&AuthConfig>,
) -> bool {
    &&& sources.len() == groups.dom().len()
    &&& forall|x: int| 0 <= x < sources.len() ==> #[trigger] built_from_some_group(sources[x], groups, list, auth_config)
    &&& forall|k: Seq<char>|
        #![trigger groups.contains_key(k)]
        groups.contains_key(k) ==> exists|x: int|
            0 <= x < sources.len() && #[trigger] sources[x].built_from(groups[k], list, auth_config)
}

impl<'a, 'b> MirrorSources<'a, 'b> {
    /// Groups the entries of `sourcelist` by their database name: `database_names[i]` is the
    /// database name of `sourcelist[i]`'s dist path, or the error met computing it. Each group
    /// becomes one mirror source holding its entries in order, with the credentials that
    /// `auth_config` gives for the URL of its first entry. An empty list is refused, and the
    /// first error among the names is returned. The groups come in no fixed order.
    pub fn from_sourcelist(
        sourcelist: &'a [OmaSourceEntry],
        database_names: Vec<Result<String, RefreshError>>,
        auth_config: Option<&'b AuthConfig>,
    ) -> (r: Result<Self, RefreshError>)
        requires
            database_names@.len() == sourcelist@.len(),
        ensures
            sourcelist@.len() == 0 ==> r matches Err(RefreshError::SourceListsEmpty),
            sourcelist@.len() > 0 && !all_named(database_names@) ==> exists|i: int|
                first_error_at(database_names@, i) && (r matches Err(e) && e == #[trigger] database_names@[i]->Err_0),
            sourcelist@.len() > 0 && all_named(database_names@) ==> (r matches Ok(ms) && grouped(
                ms.0@,
                groups_of(name_views(database_names@)),
                sourcelist@,
                auth_config,
            )),
    {
        if sourcelist.len() == 0 {
            return Err(RefreshError::SourceListsEmpty);
        }
        let ghost names = database_names@;
        let ghost nm = name_views(names);
        let n = sourcelist.len();
        let mut map = group_table_new();
        let mut i: usize = 0;
        proof {
            assert(group_table_contents(map) =~= groups_of(nm.take(0)));
        }
        for name_res in it: database_names
            invariant
                it.seq() == names,
                i == it.index(),
                names.len() == sourcelist@.len(),
                n == names.len(),
                nm == name_views(names),
                forall|j: int| 0 <= j < i ==> #[trigger] names[j] is Ok,
                group_table_contents(map) == groups_of(nm.take(i as int)),
        {
            let name = match name_res {
                Ok(n) => n,
                Err(e) => {
                    proof {
                        assert(first_error_at(names, i as int));
                    }
                    return Err(e);
                },
            };
            let ghost before = group_table_contents(map);
            let mut v = match group_table_remove(&mut map, name.as_str()) {
                Some(v) => v,
                None => Vec::new(),
            };
            v.push(i);
            let _ = group_table_insert(&mut map, name, v);
            assert(i < names.len());
            proof {
                assert(nm[i as int] == name@);
                assert(nm.take(i + 1).drop_last() =~= nm.take(i as int));
                assert(nm.take(i + 1).last() == name@);
                assert(group_table_contents(map) =~= groups_of(nm.take(i + 1)));
            }
            i = i + 1;
        }
        assert(i == n);
        proof {
            assert(nm.take(nm.len() as int) =~= nm);
            assert(all_named(names));
            law_groups_partition_entries(nm);
        }
        let ghost groups = groups_of(nm);
        assert(group_table_contents(map) == groups);
        let pairs = group_table_into_vec(map);
        let mut res: Vec<MirrorSource<'a, 'b>> = Vec::new();
        let mut g: usize = 0;
        while g < pairs.len()
            invariant
                g <= pairs@.len(),
                res@.len() == g,
                pairs@.len() == groups.dom().len(),
                forall|k: Seq<char>| groups.contains_key(k) ==> exists|x: int| 0 <= x < pairs@.len() && #[trigger] pairs@[x].0@ == k,
                groups == groups_of(nm),
                nm.len() == sourcelist@.len(),
                forall|x: int| 0 <= x < pairs@.len() ==> groups.contains_key(#[trigger] pairs@[x].0@)
                    && groups[pairs@[x].0@] == pairs@[x].1@,
                forall|k: Seq<char>| #[trigger] groups.contains_key(k) ==> groups[k].len() > 0,
                forall|k: Seq<char>, t: int|
                    groups.contains_key(k) && 0 <= t < groups[k].len() ==> #[trigger] groups[k][t] < nm.len(),
                forall|x: int| 0 <= x < g ==> #[trigger] res@[x].built_from(pairs@[x].1@, sourcelist@, auth_config),
            decreases pairs.len() - g,
        {
            let positions = &pairs[g].1;
            let ghost key = pairs@[g as int].0@;
            assert(groups.contains_key(key));
            let mut sources: Vec<&'a OmaSourceEntry> = Vec::new();
            let mut t: usize = 0;
            while t < positions.len()
                invariant
                    t <= positions@.len(),
                    positions@ == groups[key],
                    groups.contains_key(key),
                    nm.len() == sourcelist@.len(),
                    forall|t2: int| 0 <= t2 < groups[key].len() ==> #[trigger] groups[key][t2] < nm.len(),
                    sources@.len() == t,
                    forall|u: int| 0 <= u < t ==> *sources@[u] == sourcelist@[#[trigger] positions@[u] as int],
                decreases positions.len() - t,
            {
                assert(positions@[t as int] < nm.len());
                sources.push(&sourcelist[positions[t]]);
                t = t + 1;
            }
            let url = sources[0].url();
            let auth = match auth_config {
                Some(c) => find_auth(c, url.as_str()),
                None => None,
            };
            let ms = MirrorSource { sources, release_file_name: None, auth };
            proof {
                assert(ms.members()[0] == *ms.sources@[0]);
                assert forall|u: int| 0 <= u < positions@.len() implies ms.members()[u] == sourcelist@[#[trigger] positions@[u] as int] by {
                    assert(ms.members()[u] == *ms.sources@[u]);
                }
                assert(ms.built_from(pairs@[g as int].1@, sourcelist@, auth_config));
            }
            res.push(ms);
            g = g + 1;
        }
        assert(grouped(res@, groups, sourcelist@, auth_config)) by {
            assert forall|x: int| 0 <= x < res@.len() implies #[trigger] built_from_some_group(res@[x], groups, sourcelist@, auth_config) by {
                let k = pairs@[x].0@;
                assert(groups.contains_key(k));
                assert(res@[x].built_from(groups[k], sourcelist@, auth_config));
            }
            assert forall|k: Seq<char>| #![trigger groups.contains_key(k)] groups.contains_key(k) implies exists|x: int|
                0 <= x < res@.len() && #[trigger] res@[x].built_from(groups[k], sourcelist@, auth_config) by {
                let x = choose|x: int| 0 <= x < pairs@.len() && #[trigger] pairs@[x].0@ == k;
                assert(res@[x].built_from(pairs@[x].1@, sourcelist@, auth_config));
            }
        }
        Ok(MirrorSources(res))
    }
}

/// A line of a one-line-style sources list.
pub enum SourceLine {
    Comment(String),
    Empty,
    Entry(SourceEntry),
}

/// A parsed sources list file: one-line style, or deb822 style.
pub enum SourceListType {
    SourceLine(Vec<SourceLine>),
    Deb822(Vec<SourceEntry>),
}

/// What reading one sources list file gave.
pub enum SourcesListOutcome {
    /// The file was parsed.
    Parsed(SourceListType),
    /// The file at `path` is of a kind that is not supported.
    UnknownFile { path: String },
    /// Reading or parsing the file failed otherwise.
    Failed,
}

/// What is reported while the sources lists are read.
pub enum Event {
    /// The file at `path` is of a kind that is not supported; it is skipped.
    SourceListFileNotSupport { path: String },
}

/// What to do after one sources list file.
pub enum SourcesListAction {
    /// Go on with the next file.
    Continue,
    /// Report the event, then go on with the next file.
    Notify(Event),
    /// Stop, with the error that reading the file gave.
    Abort,
}

/// The entries of the lines that hold one, in order.
pub open spec fn line_entries(lines: Seq<SourceLine>) -> Seq<SourceEntry>
    decreases lines.len(),
{
    if lines.len() == 0 {
        Seq::empty()
    } else {
        let rest = line_entries(lines.drop_last());
        match lines.last() {
            SourceLine::Entry(e) => rest.push(e),
            _ => rest,
        }
    }
}

/// The entries of a parsed sources list file, in order.
pub open spec fn list_entries(list: SourceListType) -> Seq<SourceEntry> {
    match list {
        SourceListType::SourceLine(lines) => line_entries(lines@),
        SourceListType::Deb822(entries) => entries@,
    }
}

/// `after` is `before` followed by one entry for each of `entries`, in order, each with `arch`.
pub open spec fn appended(
    before: Seq<OmaSourceEntry>,
    after: Seq<OmaSourceEntry>,
    entries: Seq<SourceEntry>,
    arch: Seq<char>,
) -> bool {
    &&& after.len() == before.len() + entries.len()
    &&& forall|i: int| 0 <= i < before.len() ==> #[trigger] after[i] == before[i]
    &&& forall|j: int|
        0 <= j < entries.len() ==> (#[trigger] after[before.len() + j]).entry() == entries[j]
            && after[before.len() + j].arch_of() == arch
}

/// Takes in what reading one sources list file gave: the entries of a parsed file are added to
/// `res`, each with `arch`; an unsupported file is reported and skipped; any other failure stops
/// the reading.
pub fn collect_sources_list(res: &mut Vec<OmaSourceEntry>, outcome: SourcesListOutcome, arch: &str) -> (r: SourcesListAction)
    ensures
        match outcome {
            SourcesListOutcome::Parsed(list) => r matches SourcesListAction::Continue && appended(
                old(res)@,
                final(res)@,
                list_entries(list),
                arch@,
            ),
            SourcesListOutcome::UnknownFile { path } => (r matches SourcesListAction::Notify(
                Event::SourceListFileNotSupport { path: p },
            ) && p == path) && final(res)@ == old(res)@,
            SourcesListOutcome::Failed => r matches SourcesListAction::Abort && final(res)@ == old(res)@,
        },
{
    match outcome {
        SourcesListOutcome::Parsed(list) => {
            let ghost entries = list_entries(list);
            let ghost start = res@;
            match list {
                SourceListType::SourceLine(lines) => {
                    let ghost all = lines@;
                    for line in it: lines
                        invariant
                            it.seq() == all,
                            entries == line_entries(all),
                            appended(start, res@, line_entries(all.take(it.index())), arch@),
                    {
                        let ghost k = it.index();
                        let ghost before = res@;
                        proof {
                            assert(all.take(k + 1).drop_last() =~= all.take(k));
                            assert(all.take(k + 1).last() == line);
                        }
                        match line {
                            SourceLine::Entry(e) => {
                                res.push(OmaSourceEntry::new(e, arch));
                                proof {
                                    let es = line_entries(all.take(k + 1));
                                    assert(es == line_entries(all.take(k)).push(e));
                                    assert forall|j: int| 0 <= j < es.len() implies (#[trigger] res@[start.len() + j]).entry() == es[j]
                                        && res@[start.len() + j].arch_of() == arch@ by {
                                        if j < es.len() - 1 {
                                            assert(res@[start.len() + j] == before[start.len() + j]);
                                        }
                                    }
                                    assert forall|i: int| 0 <= i < start.len() implies #[trigger] res@[i] == start[i] by {
                                        assert(res@[i] == before[i]);
                                    }
                                }
                            },
                            _ => {},
                        }
                    }
                    proof {
                        assert(all.take(all.len() as int) =~= all);
                    }
                },
                SourceListType::Deb822(list_entries_vec) => {
                    let ghost all = list_entries_vec@;
                    for e in it: list_entries_vec
                        invariant
                            it.seq() == all,
                            entries == all,
                            appended(start, res@, all.take(it.index()), arch@),
                    {
                        let ghost k = it.index();
                        let ghost before = res@;
                        res.push(OmaSourceEntry::new(e, arch));
                        proof {
                            let es = all.take(k + 1);
                            assert(es[k] == e);
                            assert forall|j: int| 0 <= j < es.len() implies (#[trigger] res@[start.len() + j]).entry() == es[j]
                                && res@[start.len() + j].arch_of() == arch@ by {
                                if j < es.len() - 1 {
                                    assert(res@[start.len() + j] == before[start.len() + j]);
                                    assert(es[j] == all.take(k)[j]);
                                }
                            }
                            assert forall|i: int| 0 <= i < start.len() implies #[trigger] res@[i] == start[i] by {
                                assert(res@[i] == before[i]);
                            }
                        }
                    }
                    proof {
                        assert(all.take(all.len() as int) =~= all);
                    }
                },
            }
            SourcesListAction::Continue
        },
        SourcesListOutcome::UnknownFile { path } => {
            SourcesListAction::Notify(Event::SourceListFileNotSupport { path })
        },
        SourcesListOutcome::Failed => SourcesListAction::Abort,
    }
}

/// The release file name is written once: once it is set, setting it again is refused, as
/// the requirement of `set_release_file_name` no longer holds, and the name stays as it is.
pub proof fn law_release_file_name_written_once<'a, 'b>(source: MirrorSource<'a, 'b>, name: Seq<char>)
    requires
        source.release_file() == Some(name),
    ensures
        !(source.release_file() is None),
{
}

} // verus!
