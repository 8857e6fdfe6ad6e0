//! Where the release data of a version lives, which release branches and tags
//! name versions, and the order in which the two manifests are tried.
use vstd::prelude::*;
use vstd::string::StrSliceExecFns;
use vstd::utf8::is_ascii_chars;

use crate::mapping::VersionMapping;

verus! {

/// The pattern of a stable release tag, such as `polkadot-stable2407-1`.
pub const POLKADOT_SDK_STABLE_TAGS_REGEX: &'static str = r"^polkadot-stable\d+(-\d+)?$";

/// The branch of the ORML repository whose name matches the version filter but
/// names no Polkadot SDK release.
pub const ORML_EXCLUDED_BRANCH: &'static str = "polkadot-v1.0.0";

/// Whether the characters are one or more ASCII decimal digits.
pub open spec fn ascii_digits(s: Seq<char>) -> bool {
    s.len() > 0 && forall|i: int| 0 <= i < s.len() ==> '0' <= #[trigger] s[i] <= '9'
}

/// Whether an ASCII name is a stable release tag: `polkadot-stable`, digits, and
/// optionally a dash and more digits.
pub open spec fn is_stable_tag(s: Seq<char>) -> bool {
    let p = "polkadot-stable"@;
    p.is_prefix_of(s) && {
        let rest = s.skip(p.len() as int);
        ascii_digits(rest) || exists|k: int|
            0 < k < rest.len() && ascii_digits(rest.take(k)) && rest[k] == '-' && ascii_digits(
                rest.skip(k + 1),
            )
    }
}

/// What the stable-tag pattern decides of a name (its `\d` admits every Unicode decimal digit).
pub uninterp spec fn stable_tag_match(s: Seq<char>) -> bool;

/// Relies on `regex::Regex::new` and `regex::Regex::is_match`: whether `text`
/// matches the stable-tag pattern, which compiles.
#[verifier::external_body]
fn regex_is_match(pattern: &str, text: &str) -> (r: bool)
    requires
        pattern@ == POLKADOT_SDK_STABLE_TAGS_REGEX@,
    ensures
        r == stable_tag_match(text@),
        is_ascii_chars(text@) ==> (r == is_stable_tag(text@)),
        r ==> "polkadot-stable"@.is_prefix_of(text@),
{
    regex::Regex::new(pattern).unwrap().is_match(text)
}

/// `s` with every occurrence of `pat` taken out, scanning from the left.
pub open spec fn remove_all(s: Seq<char>, pat: Seq<char>) -> Seq<char>
    decreases s.len(),
{
    if pat.len() == 0 || s.len() < pat.len() {
        s
    } else if s.take(pat.len() as int) == pat {
        remove_all(s.skip(pat.len() as int), pat)
    } else {
        seq![s[0]] + remove_all(s.skip(1), pat)
    }
}

/// `s` with every non-overlapping occurrence of `pat` taken out, from the left.
pub fn replace_with_empty(s: &str, pat: &str) -> (r: String)
    ensures
        r@ == remove_all(s@, pat@),
{
    let n = s.unicode_len();
    let p = pat.unicode_len();
    if p == 0 {
        return s.to_owned();
    }
    let mut r = String::new();
    let mut i: usize = 0;
    assert(s@.skip(0) =~= s@);
    assert(r@ + remove_all(s@, pat@) =~= remove_all(s@, pat@));
    while i < n
        invariant
            n == s@.len(),
            p == pat@.len(),
            p > 0,
            i <= n,
            r@ + remove_all(s@.skip(i as int), pat@) == remove_all(s@, pat@),
        decreases n - i,
    {
        let rest = s.substring_char(i, n);
        assert(rest@ =~= s@.skip(i as int));
        if n - i < p {
            proof {
                assert(remove_all(rest@, pat@) == rest@);
            }
            r = r.concat(rest);
            assert(remove_all(s@.skip(n as int), pat@) =~= Seq::<char>::empty()) by {
                assert(s@.skip(n as int) =~= Seq::<char>::empty());
            }
            i = n;
        } else if has_prefix(rest, pat) {
            proof {
                assert(rest@.take(p as int) =~= pat@);
                assert(rest@.skip(p as int) =~= s@.skip(i + p));
            }
            i = i + p;
        } else {
            let c = s.substring_char(i, i + 1);
            proof {
                assert(rest@.take(p as int) != pat@) by {
                    if rest@.take(p as int) == pat@ {
                        assert(pat@.is_prefix_of(rest@));
                    }
                }
                assert(rest@.skip(1) =~= s@.skip(i + 1));
                assert(c@ =~= seq![rest@[0]]);
            }
            let ghost before = r@;
            r = r.concat(c);
            proof {
                assert(r@ + remove_all(s@.skip(i + 1), pat@) =~= before + (seq![rest@[0]] + remove_all(
                    rest@.skip(1),
                    pat@,
                )));
            }
            i = i + 1;
        }
    }
    assert(s@.skip(n as int) =~= Seq::<char>::empty());
    assert(r@ + Seq::<char>::empty() =~= r@);
    r
}

/// Whether `p` is a prefix of `s`.
pub fn has_prefix(s: &str, p: &str) -> (r: bool)
    ensures
        r == p@.is_prefix_of(s@),
{
    let n = p.unicode_len();
    let m = s.unicode_len();
    if n > m {
        return false;
    }
    let mut i: usize = 0;
    while i < n
        invariant
            n == p@.len(),
            m == s@.len(),
            n <= m,
            i <= n,
            forall|j: int| 0 <= j < i ==> p@[j] == s@[j],
        decreases n - i,
    {
        if p.get_char(i) != s.get_char(i) {
            return false;
        }
        i = i + 1;
    }
    true
}

/// A repository whose release branches are listed.
pub enum Repository {
    /// The official ORML repository
    Orml,
    /// The official Polkadot SDK repository
    Psdk,
}

/// Where the branches of a repository are listed, and how a branch name turns into a version.
pub struct RepositoryInfo {
    /// The URL to fetch branch information from the repository.
    pub branches_url: String,
    /// The path of the same listing for the GitHub command-line tool.
    pub gh_cmd_url: String,
    /// The prefix that marks a release branch.
    pub version_filter_string: String,
    /// The part of a release branch name that is taken out to leave the version.
    pub version_replace_string: String,
}

/// The prefix of a release branch of a repository.
pub open spec fn version_filter(r: Repository) -> Seq<char> {
    match r {
        Repository::Orml => "polkadot-v1"@,
        Repository::Psdk => "release-crates-io-v"@,
    }
}

/// The part of a release branch name that is not the version.
pub open spec fn version_replace(r: Repository) -> Seq<char> {
    match r {
        Repository::Orml => "polkadot-v"@,
        Repository::Psdk => "release-crates-io-v"@,
    }
}

/// The listing locations and branch naming of a repository.
pub fn get_repository_info(repository: &Repository) -> (r: RepositoryInfo)
    ensures
        r.version_filter_string@ == version_filter(*repository),
        r.version_replace_string@ == version_replace(*repository),
        r.branches_url@ == match *repository {
            Repository::Orml => "https://api.github.com/repos/open-web3-stack/open-runtime-module-library/branches?per_page=100&page="@,
            Repository::Psdk => "https://api.github.com/repos/paritytech/polkadot-sdk/branches?per_page=100&page="@,
        },
        r.gh_cmd_url@ == match *repository {
            Repository::Orml => "/repos/open-web3-stack/open-runtime-module-library/branches?per_page=100&page="@,
            Repository::Psdk => "/repos/paritytech/polkadot-sdk/branches?per_page=100&page="@,
        },
{
    match repository {
        Repository::Orml => RepositoryInfo {
            branches_url: "https://api.github.com/repos/open-web3-stack/open-runtime-module-library/branches?per_page=100&page=".to_owned(),
            gh_cmd_url: "/repos/open-web3-stack/open-runtime-module-library/branches?per_page=100&page=".to_owned(),
            version_filter_string: "polkadot-v1".to_owned(),
            version_replace_string: "polkadot-v".to_owned(),
        },
        Repository::Psdk => RepositoryInfo {
            branches_url: "https://api.github.com/repos/paritytech/polkadot-sdk/branches?per_page=100&page=".to_owned(),
            gh_cmd_url: "/repos/paritytech/polkadot-sdk/branches?per_page=100&page=".to_owned(),
            version_filter_string: "release-crates-io-v".to_owned(),
            version_replace_string: "release-crates-io-v".to_owned(),
        },
    }
}

/// The versions named by a list of branches: each branch with the release
/// prefix, other than the excluded ORML branch, with the prefix taken out.
pub open spec fn branch_versions(names: Seq<Seq<char>>, repository: Repository) -> Seq<Seq<char>>
    decreases names.len(),
{
    if names.len() == 0 {
        Seq::empty()
    } else {
        let init = branch_versions(names.drop_last(), repository);
        let n = names.last();
        if version_filter(repository).is_prefix_of(n) && n != ORML_EXCLUDED_BRANCH@ {
            init.push(remove_all(n, version_replace(repository)))
        } else {
            init
        }
    }
}

/// The views of a list of strings.
pub open spec fn views(v: Seq<String>) -> Seq<Seq<char>> {
    v.map_values(|s: String| s@)
}

/// The release versions named by one page of branch names of a repository.
pub fn release_versions_from_branches(repository: &Repository, names: &Vec<String>) -> (r: Vec<
    String,
>)
    ensures
        views(r@) == branch_versions(views(names@), *repository),
{
    let info = get_repository_info(repository);
    let excluded = ORML_EXCLUDED_BRANCH.to_owned();
    let mut r: Vec<String> = Vec::new();
    let mut i: usize = 0;
    while i < names.len()
        invariant
            i <= names@.len(),
            info.version_filter_string@ == version_filter(*repository),
            info.version_replace_string@ == version_replace(*repository),
            excluded@ == ORML_EXCLUDED_BRANCH@,
            views(r@) == branch_versions(views(names@.subrange(0, i as int)), *repository),
        decreases names@.len() - i,
    {
        let name = &names[i];
        proof {
            let s = views(names@.subrange(0, i as int + 1));
            assert(s.drop_last() =~= views(names@.subrange(0, i as int)));
            assert(s.last() == name@);
        }
        if has_prefix(name.as_str(), info.version_filter_string.as_str()) && *name != excluded {
            let v = replace_with_empty(name.as_str(), info.version_replace_string.as_str());
            r.push(v);
            proof {
                assert(views(r@) =~= views(r@.drop_last()).push(v@));
            }
        }
        i = i + 1;
    }
    assert(names@.subrange(0, names@.len() as int) =~= names@);
    r
}

/// The names of a list that match the stable-tag pattern, in order.
pub open spec fn stable_tags(names: Seq<Seq<char>>) -> Seq<Seq<char>>
    decreases names.len(),
{
    if names.len() == 0 {
        Seq::empty()
    } else {
        let init = stable_tags(names.drop_last());
        if stable_tag_match(names.last()) {
            init.push(names.last())
        } else {
            init
        }
    }
}

/// The stable release tags among one page of tag names.
pub fn stable_tag_versions(names: &Vec<String>) -> (r: Vec<String>)
    ensures
        views(r@) == stable_tags(views(names@)),
{
    let mut r: Vec<String> = Vec::new();
    let mut i: usize = 0;
    while i < names.len()
        invariant
            i <= names@.len(),
            views(r@) == stable_tags(views(names@.subrange(0, i as int))),
        decreases names@.len() - i,
    {
        let name = &names[i];
        proof {
            let s = views(names@.subrange(0, i as int + 1));
            assert(s.drop_last() =~= views(names@.subrange(0, i as int)));
            assert(s.last() == name@);
        }
        if regex_is_match(POLKADOT_SDK_STABLE_TAGS_REGEX, name.as_str()) {
            r.push(name.clone());
            proof {
                assert(views(r@) =~= views(r@.drop_last()).push(name@));
            }
        }
        i = i + 1;
    }
    assert(names@.subrange(0, names@.len() as int) =~= names@);
    r
}

/// The release branch or tag that holds the manifests of a version: a name
/// that starts with `stable` is a stable release, a stable tag is used as it
/// is, and any other version names a crates.io release branch.
pub open spec fn release_ref(version: Seq<char>, tag_match: bool) -> Seq<char> {
    if "stable"@.is_prefix_of(version) {
        "polkadot-"@ + version
    } else if tag_match {
        version
    } else {
        "release-crates-io-v"@ + version
    }
}

/// The branch or tag for `version`, given whether it matches the stable-tag pattern.
pub fn release_ref_for(version: &str, tag_match: bool) -> (r: String)
    ensures
        r@ == release_ref(version@, tag_match),
{
    if has_prefix(version, "stable") {
        "polkadot-".to_owned().concat(version)
    } else if tag_match {
        version.to_owned()
    } else {
        "release-crates-io-v".to_owned().concat(version)
    }
}

/// The location of a manifest file on a Polkadot SDK branch or tag.
pub open spec fn sdk_file_url(base_url: Seq<char>, reference: Seq<char>, file: Seq<char>) -> Seq<
    char,
> {
    base_url + "/paritytech/polkadot-sdk/"@ + reference + "/"@ + file
}

/// The location of the manifest file `source` for `version` under `base_url`.
pub fn version_to_url(base_url: &str, version: &str, source: &str) -> (r: String)
    ensures
        r@ == sdk_file_url(base_url@, release_ref(version@, stable_tag_match(version@)), source@),
        is_ascii_chars(version@) ==> r@ == sdk_file_url(
            base_url@,
            release_ref(version@, is_stable_tag(version@)),
            source@,
        ),
{
    let tag_match = if has_prefix(version, "stable") {
        false
    } else {
        regex_is_match(POLKADOT_SDK_STABLE_TAGS_REGEX, version)
    };
    assert(is_ascii_chars(version@) && !"stable"@.is_prefix_of(version@) ==> tag_match == is_stable_tag(
        version@,
    ));
    let reference = release_ref_for(version, tag_match);
    let r = base_url.to_owned().concat("/paritytech/polkadot-sdk/").concat(
        reference.as_str(),
    ).concat("/").concat(source);
    assert(r@ =~= sdk_file_url(base_url@, release_ref(version@, stable_tag_match(version@)), source@));
    r
}

/// The two manifests a version's mapping can be read from.
#[derive(PartialEq, Eq, Structural, Clone, Copy, Debug)]
pub enum SourceKind {
    /// The release plan, `Plan.toml`.
    PlanToml,
    /// The lock file, `Cargo.lock`.
    CargoLock,
}

/// The file name of a manifest kind.
pub open spec fn source_file(kind: SourceKind) -> Seq<char> {
    match kind {
        SourceKind::PlanToml => "Plan.toml"@,
        SourceKind::CargoLock => "Cargo.lock"@,
    }
}

/// Why no mapping could be resolved.
#[derive(Debug)]
pub enum ResolveError {
    /// The manifest could not be fetched.
    Fetch(String),
    /// The manifest does not have the shape of its kind.
    MalformedInput(String),
    /// The manifest kind is not one this library reads.
    UnsupportedSource(String),
}

impl ResolveError {
    /// The message that describes the error.
    pub fn message(&self) -> (r: String)
        ensures
            self matches ResolveError::Fetch(m) ==> r@ == m@,
            self matches ResolveError::MalformedInput(m) ==> r@ == m@,
            self matches ResolveError::UnsupportedSource(n) ==> r@ == "Unknown source: "@ + n@,
    {
        match self {
            ResolveError::Fetch(m) => m.clone(),
            ResolveError::MalformedInput(m) => m.clone(),
            ResolveError::UnsupportedSource(n) => "Unknown source: ".to_owned().concat(n.as_str()),
        }
    }
}

impl SourceKind {
    /// The file name of the manifest.
    pub fn file_name(&self) -> (r: String)
        ensures
            r@ == source_file(*self),
    {
        match self {
            SourceKind::PlanToml => "Plan.toml".to_owned(),
            SourceKind::CargoLock => "Cargo.lock".to_owned(),
        }
    }

    /// The manifest kind with file name `name`; any other name is unsupported.
    pub fn from_file_name(name: &str) -> (r: Result<SourceKind, ResolveError>)
        ensures
            match r {
                Ok(k) => source_file(k) == name@,
                Err(e) => e is UnsupportedSource && name@ != source_file(SourceKind::PlanToml)
                    && name@ != source_file(SourceKind::CargoLock),
            },
    {
        let n = name.to_owned();
        if n == "Plan.toml".to_owned() {
            Ok(SourceKind::PlanToml)
        } else if n == "Cargo.lock".to_owned() {
            Ok(SourceKind::CargoLock)
        } else {
            Err(ResolveError::UnsupportedSource(n))
        }
    }
}

/// The location of the manifest of kind `source` for `version` under `base_url`.
pub fn source_url(base_url: &str, version: &str, source: SourceKind) -> (r: String)
    ensures
        r@ == sdk_file_url(
            base_url@,
            release_ref(version@, stable_tag_match(version@)),
            source_file(source),
        ),
        is_ascii_chars(version@) ==> r@ == sdk_file_url(
            base_url@,
            release_ref(version@, is_stable_tag(version@)),
            source_file(source),
        ),
{
    let file = source.file_name();
    version_to_url(base_url, version, file.as_str())
}

/// What the resolver does next.
pub enum ResolveStep {
    /// Fetch and read the manifest of this kind.
    Fetch(SourceKind),
    /// Resolution is over, with this result.
    Done(Result<VersionMapping, ResolveError>),
}

/// The manifest a resolution tries first: the release plan.
pub fn first_source() -> (r: SourceKind)
    ensures
        r == SourceKind::PlanToml,
{
    SourceKind::PlanToml
}

/// The step after reading the manifest of kind `attempted` gave `outcome`:
/// a failed release plan falls back to the lock file once; any other outcome
/// is the result.
pub fn next_step(attempted: SourceKind, outcome: Result<VersionMapping, ResolveError>) -> (r:
    ResolveStep)
    ensures
        (attempted == SourceKind::PlanToml && outcome is Err) ==> r == ResolveStep::Fetch(
            SourceKind::CargoLock,
        ),
        !(attempted == SourceKind::PlanToml && outcome is Err) ==> r == ResolveStep::Done(outcome),
{
    match attempted {
        SourceKind::PlanToml => match outcome {
            Err(_) => ResolveStep::Fetch(SourceKind::CargoLock),
            Ok(m) => ResolveStep::Done(Ok(m)),
        },
        SourceKind::CargoLock => ResolveStep::Done(outcome),
    }
}

/// Whether the ORML repository has a release branch for `version`.
pub fn orml_release_exists(orml_versions: &Vec<String>, version: &str) -> (r: bool)
    ensures
        r == crate::sources::name_set(orml_versions@).contains(version@),
{
    crate::sources::contains_name(orml_versions, &version.to_owned())
}

/// The location of the ORML manifest for `version` under `base_url`.
pub fn orml_manifest_url(base_url: &str, version: &str) -> (r: String)
    ensures
        r@ == base_url@ + "/open-web3-stack/open-runtime-module-library/polkadot-v"@ + version@
            + "/Cargo.dev.toml"@,
{
    let r = base_url.to_owned().concat("/open-web3-stack/open-runtime-module-library/polkadot-v").concat(
        version,
    ).concat("/Cargo.dev.toml");
    assert(r@ =~= base_url@ + "/open-web3-stack/open-runtime-module-library/polkadot-v"@ + version@
        + "/Cargo.dev.toml"@);
    r
}

} // verus!
