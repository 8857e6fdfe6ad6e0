//! The records of the two release manifests, and the rules that turn them
//! into a version mapping.
use vstd::prelude::*;

use crate::mapping::VersionMapping;

verus! {

/// One package of a `Cargo.lock` file.
pub struct Package {
    /// The name of the package.
    pub name: String,
    /// The version the package is locked at.
    pub version: String,
    /// Where the package came from; absent for members of the workspace.
    pub source: Option<String>,
}

/// The packages listed by a `Cargo.lock` file.
pub struct CargoLock {
    /// The packages, in file order.
    pub package: Vec<Package>,
}

/// One crate transition of a release plan.
pub struct Crate {
    /// The name of the crate.
    pub name: String,
    /// The version the crate is updating to.
    pub to: String,
    /// The current version of the crate.
    pub from: String,
    /// Whether the crate is published with the release; absent means yes.
    pub publish: Option<bool>,
}

/// The crates listed by a `Plan.toml` release plan.
pub struct PlanToml {
    /// The crate transitions, in file order.
    pub crates: Vec<Crate>,
}

/// The ORML part of the workspace metadata.
pub struct Orml {
    /// The version shared by every ORML crate.
    pub crates_version: String,
}

/// The metadata section of the ORML workspace.
pub struct Metadata {
    /// ORML specific metadata.
    pub orml: Orml,
}

/// The ORML workspace: its members and their shared version.
pub struct Workspace {
    /// The member crates, without the `orml-` prefix.
    pub members: Vec<String>,
    /// Metadata associated with the workspace.
    pub metadata: Metadata,
}

/// The ORML manifest.
pub struct OrmlToml {
    /// The workspace information.
    pub workspace: Workspace,
}

/// A tag of a repository, by its name.
pub struct TagInfo {
    /// The name of the tag.
    pub name: String,
}

/// A crate of the registry listing of an owner's crates.
pub struct RegistryCrate {
    /// The name of the crate.
    pub id: String,
    /// The highest version published.
    pub max_version: String,
}

/// The names of the listed crates that have a real release, in order.
pub open spec fn published_names(cs: Seq<RegistryCrate>) -> Seq<Seq<char>>
    decreases cs.len(),
{
    if cs.len() == 0 {
        Seq::empty()
    } else {
        let init = published_names(cs.drop_last());
        if cs.last().max_version@ != placeholder_version() {
            init.push(cs.last().id@)
        } else {
            init
        }
    }
}

/// The mapping a lock file gives: every package without a source and with a
/// version, by name, a later package replacing an earlier one of the same name.
pub open spec fn lock_mapping(pkgs: Seq<Package>) -> Map<Seq<char>, Seq<char>>
    decreases pkgs.len(),
{
    if pkgs.len() == 0 {
        Map::empty()
    } else {
        let m = lock_mapping(pkgs.drop_last());
        let p = pkgs.last();
        if p.source is None && p.version@.len() > 0 {
            m.insert(p.name@, p.version@)
        } else {
            m
        }
    }
}

/// The version that marks a crate as a placeholder when it is both the origin and the target.
pub open spec fn placeholder_version() -> Seq<char> {
    seq!['0', '.', '0', '.', '0']
}

/// Whether a transition goes from the placeholder version to itself.
pub open spec fn is_placeholder(c: Crate) -> bool {
    c.from@ == placeholder_version() && c.to@ == placeholder_version()
}

/// Whether a plan record is taken into the mapping: it is published (or says
/// nothing), or it is held back but is a public crate and no placeholder.
pub open spec fn plan_included(c: Crate, owners: Set<Seq<char>>) -> bool {
    match c.publish {
        None => true,
        Some(p) => p || (owners.contains(c.name@) && !is_placeholder(c)),
    }
}

/// Whether a plan record gives a version: it is included and has a target.
pub open spec fn plan_takes(c: Crate, owners: Set<Seq<char>>) -> bool {
    plan_included(c, owners) && c.to@.len() > 0
}

/// The mapping a release plan gives: each included crate to its target version.
pub open spec fn plan_mapping(crates: Seq<Crate>, owners: Set<Seq<char>>) -> Map<Seq<char>, Seq<char>>
    decreases crates.len(),
{
    if crates.len() == 0 {
        Map::empty()
    } else {
        let m = plan_mapping(crates.drop_last(), owners);
        let c = crates.last();
        if plan_takes(c, owners) {
            m.insert(c.name@, c.to@)
        } else {
            m
        }
    }
}

/// The names in a list of names, as a set.
pub open spec fn name_set(names: Seq<String>) -> Set<Seq<char>> {
    Set::new(|n: Seq<char>| exists|i: int| 0 <= i < names.len() && names[i]@ == n)
}

/// The prefix that marks an ORML crate.
pub open spec fn orml_prefix() -> Seq<char> {
    seq!['o', 'r', 'm', 'l', '-']
}

/// The mapping of the ORML members: each prefixed name to the shared version.
pub open spec fn orml_mapping(members: Seq<String>, version: Seq<char>) -> Map<Seq<char>, Seq<char>>
    decreases members.len(),
{
    if members.len() == 0 {
        Map::empty()
    } else {
        orml_mapping(members.drop_last(), version).insert(orml_prefix() + members.last()@, version)
    }
}

/// Whether `name` is one of `names`.
pub fn contains_name(names: &Vec<String>, name: &String) -> (r: bool)
    ensures
        r == name_set(names@).contains(name@),
{
    let mut i: usize = 0;
    while i < names.len()
        invariant
            i <= names@.len(),
            forall|j: int| 0 <= j < i ==> names@[j]@ != name@,
        decreases names@.len() - i,
    {
        if names[i] == *name {
            return true;
        }
        i = i + 1;
    }
    false
}

/// The names of one page of an owner's registry listing whose highest version
/// is not the placeholder.
pub fn public_crate_names(page: &Vec<RegistryCrate>) -> (r: Vec<String>)
    ensures
        r@.map_values(|n: String| n@) == published_names(page@),
{
    let zero = "0.0.0".to_owned();
    proof {
        reveal_strlit("0.0.0");
        assert(zero@ =~= placeholder_version());
    }
    let mut r: Vec<String> = Vec::new();
    let mut i: usize = 0;
    while i < page.len()
        invariant
            i <= page@.len(),
            zero@ == placeholder_version(),
            r@.map_values(|n: String| n@) == published_names(page@.subrange(0, i as int)),
        decreases page@.len() - i,
    {
        proof {
            let s = page@.subrange(0, i as int + 1);
            assert(s.drop_last() =~= page@.subrange(0, i as int));
        }
        if page[i].max_version != zero {
            r.push(page[i].id.clone());
            proof {
                assert(r@.map_values(|n: String| n@) =~= r@.drop_last().map_values(|n: String| n@).push(
                    page@[i as int].id@,
                ));
            }
        }
        i = i + 1;
    }
    assert(page@.subrange(0, page@.len() as int) =~= page@);
    r
}

/// The mapping of a lock file: the packages that have no source, by name.
pub fn get_cargo_packages(lock: &CargoLock) -> (r: VersionMapping)
    ensures
        r@ == lock_mapping(lock.package@),
{
    let mut r = VersionMapping::new();
    let mut i: usize = 0;
    while i < lock.package.len()
        invariant
            i <= lock.package@.len(),
            r@ == lock_mapping(lock.package@.subrange(0, i as int)),
        decreases lock.package@.len() - i,
    {
        let p = &lock.package[i];
        proof {
            let s = lock.package@.subrange(0, i as int + 1);
            assert(s.drop_last() =~= lock.package@.subrange(0, i as int));
        }
        if p.source.is_none() && !p.version.as_str().is_empty() {
            r.insert(p.name.clone(), p.version.clone());
        }
        i = i + 1;
    }
    assert(lock.package@.subrange(0, lock.package@.len() as int) =~= lock.package@);
    r
}

/// Whether a plan record belongs in the mapping, given the names of the public crates.
pub fn plan_includes(c: &Crate, owners: &Vec<String>) -> (r: bool)
    ensures
        r == plan_included(*c, name_set(owners@)),
{
    match c.publish {
        None => true,
        Some(true) => true,
        Some(false) => {
            let zero = "0.0.0".to_owned();
            proof {
                reveal_strlit("0.0.0");
                assert(zero@ =~= placeholder_version());
            }
            let placeholder = c.from == zero && c.to == zero;
            !placeholder && contains_name(owners, &c.name)
        },
    }
}

/// The mapping of a release plan: the included crates, each to its target version.
pub fn get_plan_packages(plan: &PlanToml, owners: &Vec<String>) -> (r: VersionMapping)
    ensures
        r@ == plan_mapping(plan.crates@, name_set(owners@)),
{
    let mut r = VersionMapping::new();
    let mut i: usize = 0;
    while i < plan.crates.len()
        invariant
            i <= plan.crates@.len(),
            r@ == plan_mapping(plan.crates@.subrange(0, i as int), name_set(owners@)),
        decreases plan.crates@.len() - i,
    {
        let c = &plan.crates[i];
        proof {
            let s = plan.crates@.subrange(0, i as int + 1);
            assert(s.drop_last() =~= plan.crates@.subrange(0, i as int));
        }
        if plan_includes(c, owners) && !c.to.as_str().is_empty() {
            r.insert(c.name.clone(), c.to.clone());
        }
        i = i + 1;
    }
    assert(plan.crates@.subrange(0, plan.crates@.len() as int) =~= plan.crates@);
    r
}

/// The name an ORML member goes by in a mapping: `orml-` and the member.
pub fn orml_crate_name(member: &String) -> (r: String)
    ensures
        r@ == orml_prefix() + member@,
{
    let prefix = "orml-".to_owned();
    proof {
        reveal_strlit("orml-");
    }
    let r = prefix.concat(member.as_str());
    assert(r@ =~= orml_prefix() + member@);
    r
}

/// Adds every ORML member, prefixed with `orml-`, at the shared ORML version,
/// replacing any version a name already had. Does nothing without a manifest,
/// or when the manifest gives no version.
pub fn include_orml_crates_in_version_mapping(
    crates_versions: &mut VersionMapping,
    orml_crates_version: Option<OrmlToml>,
)
    ensures
        match orml_crates_version {
            None => final(crates_versions)@ == old(crates_versions)@,
            Some(o) => if o.workspace.metadata.orml.crates_version@.len() > 0 {
                final(crates_versions)@ == old(crates_versions)@.union_prefer_right(
                    orml_mapping(o.workspace.members@, o.workspace.metadata.orml.crates_version@),
                )
            } else {
                final(crates_versions)@ == old(crates_versions)@
            },
        },
        orml_crates_version matches Some(o) ==> forall|k: Seq<char>|
            #[trigger] orml_mapping(o.workspace.members@, o.workspace.metadata.orml.crates_version@).contains_key(k)
                && o.workspace.metadata.orml.crates_version@.len() > 0 ==> final(crates_versions)@.contains_key(k)
                && final(crates_versions)@[k] == o.workspace.metadata.orml.crates_version@,
{
    if let Some(orml_toml) = orml_crates_version {
        proof {
            lemma_orml_mapping_version(
                orml_toml.workspace.members@,
                orml_toml.workspace.metadata.orml.crates_version@,
            );
        }
        let members = &orml_toml.workspace.members;
        let version = &orml_toml.workspace.metadata.orml.crates_version;
        if version.as_str().is_empty() {
            return;
        }
        let ghost start = crates_versions@;
        let mut i: usize = 0;
        assert(start.union_prefer_right(orml_mapping(members@.subrange(0, 0), version@)) =~= start);
        while i < members.len()
            invariant
                i <= members@.len(),
                version@.len() > 0,
                crates_versions@ == start.union_prefer_right(
                    orml_mapping(members@.subrange(0, i as int), version@),
                ),
            decreases members@.len() - i,
        {
            let name = orml_crate_name(&members[i]);
            proof {
                let s = members@.subrange(0, i as int + 1);
                assert(s.drop_last() =~= members@.subrange(0, i as int));
                let before = orml_mapping(members@.subrange(0, i as int), version@);
                assert(start.union_prefer_right(before.insert(name@, version@)) =~= start.union_prefer_right(
                    before,
                ).insert(name@, version@));
            }
            crates_versions.insert(name, version.clone());
            i = i + 1;
        }
        assert(members@.subrange(0, members@.len() as int) =~= members@);
    }
}

/// Every name of the ORML mapping maps to the shared version.
pub proof fn lemma_orml_mapping_version(members: Seq<String>, version: Seq<char>)
    ensures
        forall|k: Seq<char>| #[trigger] orml_mapping(members, version).contains_key(k) ==> orml_mapping(
            members,
            version,
        )[k] == version,
    decreases members.len(),
{
    if members.len() > 0 {
        lemma_orml_mapping_version(members.drop_last(), version);
        let prev = orml_mapping(members.drop_last(), version);
        assert forall|k: Seq<char>| #[trigger] orml_mapping(members, version).contains_key(k) implies orml_mapping(
            members,
            version,
        )[k] == version by {
            if k != orml_prefix() + members.last()@ {
                assert(prev.contains_key(k));
            }
        }
    }
}

/// The secondary namespace takes precedence: after augmentation every ORML
/// name maps to the shared ORML version, whatever the primary mapping held for
/// it, and every other name keeps its primary version.
pub proof fn orml_augmentation_overrides(
    primary: Map<Seq<char>, Seq<char>>,
    members: Seq<String>,
    version: Seq<char>,
)
    ensures
        forall|k: Seq<char>|
            #[trigger] orml_mapping(members, version).contains_key(k) ==> primary.union_prefer_right(
                orml_mapping(members, version),
            )[k] == version,
        forall|k: Seq<char>|
            primary.contains_key(k) && !orml_mapping(members, version).contains_key(k)
                ==> #[trigger] primary.union_prefer_right(orml_mapping(members, version))[k] == primary[k],
{
    lemma_orml_mapping_version(members, version);
}

/// The plan inclusion rule, stated directly: a name has a version exactly when
/// some record of that name is included (published, or held back but public
/// and no placeholder) and has a target, and its version is the target of the
/// last such record.
pub proof fn plan_mapping_rule(crates: Seq<Crate>, owners: Set<Seq<char>>)
    ensures
        forall|n: Seq<char>|
            #[trigger] plan_mapping(crates, owners).contains_key(n) <==> exists|i: int|
                0 <= i < crates.len() && crates[i].name@ == n && plan_takes(crates[i], owners),
        forall|i: int|
            0 <= i < crates.len() && plan_takes(crates[i], owners) && (forall|j: int|
                i < j < crates.len() ==> !(#[trigger] crates[j].name@ == crates[i].name@
                    && plan_takes(crates[j], owners))) ==> #[trigger] plan_mapping(crates, owners)[crates[i].name@]
                == crates[i].to@,
    decreases crates.len(),
{
    if crates.len() > 0 {
        let init = crates.drop_last();
        let last = crates.last();
        let n_last = (crates.len() - 1) as int;
        plan_mapping_rule(init, owners);
        let m = plan_mapping(crates, owners);
        let mi = plan_mapping(init, owners);
        assert forall|n: Seq<char>| #[trigger] m.contains_key(n) <==> exists|i: int|
            0 <= i < crates.len() && crates[i].name@ == n && plan_takes(crates[i], owners) by {
            if m.contains_key(n) {
                if plan_takes(last, owners) && n == last.name@ {
                    assert(crates[n_last].name@ == n);
                } else {
                    assert(mi.contains_key(n));
                    let i = choose|i: int| 0 <= i < init.len() && init[i].name@ == n && plan_takes(init[i], owners);
                    assert(crates[i] == init[i]);
                }
            }
            if exists|i: int| 0 <= i < crates.len() && crates[i].name@ == n && plan_takes(crates[i], owners) {
                let i = choose|i: int| 0 <= i < crates.len() && crates[i].name@ == n && plan_takes(crates[i], owners);
                if i < init.len() {
                    assert(init[i] == crates[i]);
                    assert(mi.contains_key(n));
                }
            }
        }
        assert forall|i: int|
            0 <= i < crates.len() && plan_takes(crates[i], owners) && (forall|j: int|
                i < j < crates.len() ==> !(#[trigger] crates[j].name@ == crates[i].name@
                    && plan_takes(crates[j], owners))) implies #[trigger] m[crates[i].name@]
                == crates[i].to@ by {
            if i < n_last {
                assert(init[i] == crates[i]);
                assert(!(crates[n_last].name@ == crates[i].name@ && plan_takes(crates[n_last], owners)));
                assert forall|j: int| i < j < init.len() implies !(#[trigger] init[j].name@ == init[i].name@
                    && plan_takes(init[j], owners)) by {
                    assert(init[j] == crates[j]);
                }
            }
        }
    }
}

} // verus!
