//! Checking, without rewriting, that the dependency sections of a document
//! already carry the versions of a mapping.
use vstd::prelude::*;

use toml_edit::Table;

use crate::mapping::{unique_keys, VersionMapping};
use crate::rewrite::{
    DeclView, Declaration, FieldKind, FieldView, dependency_sections, document_has_workspace,
    field_of, fields_view, has_key, is_dep_section, lookup_name, parses_as_document,
    table_entries, text_has_workspace, text_sections, value_of,
};

verus! {

/// What a check finds of one declaration.
#[derive(PartialEq, Eq, Structural, Clone, Copy, Debug)]
pub enum CheckStatus {
    /// Not managed by the mapping, a local path record, or a value of another shape.
    Skip,
    /// At the mapped version.
    Match,
    /// At another version.
    Mismatch,
    /// A managed record without a string `version` field.
    Invalid,
}

/// The finding for the declaration keyed `key`.
pub open spec fn check_decl(
    key: Seq<char>,
    d: DeclView,
    m: Map<Seq<char>, Seq<char>>,
    overwrite: bool,
) -> CheckStatus {
    let name = lookup_name(key, d);
    if !m.contains_key(name) {
        CheckStatus::Skip
    } else {
        match d {
            DeclView::Record(fs, _) => if !overwrite && has_key(fs, "path"@) {
                CheckStatus::Skip
            } else {
                match field_of(fs, "version"@) {
                    Some(FieldView::Text(v)) => if v == m[name] {
                        CheckStatus::Match
                    } else {
                        CheckStatus::Mismatch
                    },
                    _ => CheckStatus::Invalid,
                }
            },
            DeclView::Text(v) => if v == m[name] {
                CheckStatus::Match
            } else {
                CheckStatus::Mismatch
            },
            DeclView::Other => CheckStatus::Skip,
        }
    }
}

/// Whether some entry of a table has the finding `s`.
pub open spec fn any_status(
    entries: Seq<(Seq<char>, DeclView)>,
    m: Map<Seq<char>, Seq<char>>,
    overwrite: bool,
    s: CheckStatus,
) -> bool {
    exists|i: int| 0 <= i < entries.len() && check_decl(entries[i].0, entries[i].1, m, overwrite) == s
}

/// Why a check failed.
#[derive(Debug)]
pub enum CheckError {
    /// The text is not a TOML document; the parser's message.
    Malformed(String),
    /// A managed record has no string `version` field.
    InvalidDependencyFormat,
    /// Some managed declaration is at another version than the mapping's.
    Mismatch,
}

impl CheckError {
    /// The message that describes the error.
    pub fn message(&self) -> (r: String)
        ensures
            self is InvalidDependencyFormat ==> r@ == "Invalid Dependency Format"@,
            self is Mismatch ==> r@ == "One or More Dependency version mismatch found"@,
            self matches CheckError::Malformed(m) ==> r@ == m@,
    {
        match self {
            CheckError::Malformed(m) => m.clone(),
            CheckError::InvalidDependencyFormat => "Invalid Dependency Format".to_owned(),
            CheckError::Mismatch => "One or More Dependency version mismatch found".to_owned(),
        }
    }
}

/// Checks the declarations of one dependency table: an error if some managed
/// record is invalid, else whether some declaration is at another version.
pub fn check_table_dependencies(
    dep_table: &Table,
    crates_versions: &VersionMapping,
    overwrite: bool,
) -> (r: Result<bool, CheckError>)
    ensures
        r is Err <==> any_status(table_entries(*dep_table), crates_versions@, overwrite, CheckStatus::Invalid),
        r is Err ==> r matches Err(CheckError::InvalidDependencyFormat),
        r matches Ok(b) ==> b == any_status(
            table_entries(*dep_table),
            crates_versions@,
            overwrite,
            CheckStatus::Mismatch,
        ),
{
    let ghost entries = table_entries(*dep_table);
    let ghost m = crates_versions@;
    let keys = crate::rewrite::table_keys(dep_table);
    assert(unique_keys(entries)) by {
        assert forall|a: int, b: int| 0 <= a < b < entries.len() implies entries[a].0 != entries[b].0 by {
            assert(keys@[a]@ == entries[a].0 && keys@[b]@ == entries[b].0);
        }
    }
    let mut has_mismatch = false;
    let mut i: usize = 0;
    while i < keys.len()
        invariant
            i <= keys@.len(),
            entries == table_entries(*dep_table),
            m == crates_versions@,
            keys@.len() == entries.len(),
            forall|j: int| 0 <= j < keys@.len() ==> #[trigger] keys@[j]@ == entries[j].0,
            unique_keys(entries),
            forall|j: int| 0 <= j < i ==> check_decl(entries[j].0, entries[j].1, m, overwrite) != CheckStatus::Invalid,
            has_mismatch == exists|j: int| 0 <= j < i && check_decl(entries[j].0, entries[j].1, m, overwrite) == CheckStatus::Mismatch,
        decreases keys@.len() - i,
    {
        let key = &keys[i];
        proof {
            crate::rewrite::lemma_value_of_unique(entries, i as int);
            assert(key@ == entries[i as int].0);
        }
        let decl = crate::rewrite::describe_entry(dep_table, key.as_str());
        let status = declaration_status(key, &decl, crates_versions, overwrite);
        if status == CheckStatus::Invalid {
            assert(any_status(entries, m, overwrite, CheckStatus::Invalid));
            return Err(CheckError::InvalidDependencyFormat);
        }
        if status == CheckStatus::Mismatch {
            has_mismatch = true;
        }
        i = i + 1;
    }
    assert(!any_status(entries, m, overwrite, CheckStatus::Invalid));
    Ok(has_mismatch)
}

/// The finding for the declaration `d` keyed `key`.
pub fn declaration_status(
    key: &String,
    d: &Declaration,
    crates_versions: &VersionMapping,
    overwrite: bool,
) -> (r: CheckStatus)
    requires
        d matches Declaration::Record(fs, _) ==> unique_keys(fields_view(fs@)),
    ensures
        r == check_decl(key@, d@, crates_versions@, overwrite),
{
    let name = crate::rewrite::rename_deps(d, key);
    match crates_versions.get(name.as_str()) {
        None => CheckStatus::Skip,
        Some(version) => match d {
            Declaration::Record(fields, _) => {
                proof {
                    reveal_strlit("path");
                    reveal_strlit("version");
                }
                let path_at = crate::rewrite::find_field(fields, "path");
                if !overwrite && path_at.is_some() {
                    proof {
                        let p = path_at->Some_0 as int;
                        assert(fields_view(fields@)[p].0 == "path"@);
                    }
                    CheckStatus::Skip
                } else {
                    match crate::rewrite::find_field(fields, "version") {
                        None => CheckStatus::Invalid,
                        Some(j) => {
                            proof {
                                crate::rewrite::lemma_value_of_unique(fields_view(fields@), j as int);
                            }
                            match &fields[j].1 {
                                FieldKind::Text(v) => if *v == *version {
                                    CheckStatus::Match
                                } else {
                                    CheckStatus::Mismatch
                                },
                                _ => CheckStatus::Invalid,
                            }
                        },
                    }
                }
            },
            Declaration::Text(v) => if *v == *version {
                CheckStatus::Match
            } else {
                CheckStatus::Mismatch
            },
            Declaration::Other => CheckStatus::Skip,
        },
    }
}

/// Whether some declaration of a dependency section in scope has the finding `s`.
pub open spec fn sections_status(
    sections: Map<(bool, Seq<char>), Seq<(Seq<char>, DeclView)>>,
    in_workspace: bool,
    m: Map<Seq<char>, Seq<char>>,
    overwrite: bool,
    s: CheckStatus,
) -> bool {
    exists|name: Seq<char>|
        is_dep_section(name) && #[trigger] sections.contains_key((in_workspace, name)) && any_status(
            sections[(in_workspace, name)],
            m,
            overwrite,
            s,
        )
}

/// Checks one dependency section of a document, if it is a table.
fn check_section(
    doc: &toml_edit::DocumentMut,
    in_workspace: bool,
    section: &str,
    crates_versions: &VersionMapping,
    overwrite: bool,
) -> (r: Result<bool, CheckError>)
    requires
        is_dep_section(section@),
    ensures
        r is Err <==> dependency_sections(*doc).contains_key((in_workspace, section@)) && any_status(
            dependency_sections(*doc)[(in_workspace, section@)],
            crates_versions@,
            overwrite,
            CheckStatus::Invalid,
        ),
        r is Err ==> r matches Err(CheckError::InvalidDependencyFormat),
        r matches Ok(b) ==> b == (dependency_sections(*doc).contains_key((in_workspace, section@))
            && any_status(
            dependency_sections(*doc)[(in_workspace, section@)],
            crates_versions@,
            overwrite,
            CheckStatus::Mismatch,
        )),
{
    match crate::rewrite::get_section(doc, in_workspace, section) {
        Some(table) => check_table_dependencies(table, crates_versions, overwrite),
        None => Ok(false),
    }
}

/// Checks that every dependency section in scope of the document `content`
/// already carries the versions of the mapping.
pub fn check_dependencies(content: &str, crates_versions: &VersionMapping, overwrite: bool) -> (r:
    Result<(), CheckError>)
    ensures
        r matches Err(CheckError::Malformed(_)) <==> !parses_as_document(content@),
        parses_as_document(content@) ==> (r matches Err(CheckError::InvalidDependencyFormat)
            <==> sections_status(
            text_sections(content@),
            text_has_workspace(content@),
            crates_versions@,
            overwrite,
            CheckStatus::Invalid,
        )),
        parses_as_document(content@) ==> (r matches Err(CheckError::Mismatch) <==> !sections_status(
            text_sections(content@),
            text_has_workspace(content@),
            crates_versions@,
            overwrite,
            CheckStatus::Invalid,
        ) && sections_status(
            text_sections(content@),
            text_has_workspace(content@),
            crates_versions@,
            overwrite,
            CheckStatus::Mismatch,
        )),
{
    let doc = match crate::rewrite::parse_document(content) {
        Err(e) => {
            return Err(CheckError::Malformed(crate::rewrite::toml_error_message(&e)));
        },
        Ok(doc) => doc,
    };
    let ghost secs = dependency_sections(doc);
    let in_workspace = crate::rewrite::has_workspace_table(&doc);
    let ghost m = crates_versions@;
    proof {
        reveal_strlit("dependencies");
        reveal_strlit("dev-dependencies");
        reveal_strlit("build-dependencies");
        assert forall|name: Seq<char>| #[trigger] is_dep_section(name) implies name == "dependencies"@
            || name == "dev-dependencies"@ || name == "build-dependencies"@ by {}
    }
    let a = check_section(&doc, in_workspace, "dependencies", crates_versions, overwrite);
    let b = check_section(&doc, in_workspace, "dev-dependencies", crates_versions, overwrite);
    let c = check_section(&doc, in_workspace, "build-dependencies", crates_versions, overwrite);
    proof {
        let inv = sections_status(secs, in_workspace, m, overwrite, CheckStatus::Invalid);
        let mis = sections_status(secs, in_workspace, m, overwrite, CheckStatus::Mismatch);
        assert(inv <==> (a is Err || b is Err || c is Err)) by {
            if inv {
                let name = choose|name: Seq<char>|
                    is_dep_section(name) && #[trigger] secs.contains_key((in_workspace, name))
                        && any_status(secs[(in_workspace, name)], m, overwrite, CheckStatus::Invalid);
                assert(name == "dependencies"@ || name == "dev-dependencies"@ || name == "build-dependencies"@);
            }
        }
        if !inv {
            assert(mis <==> (a == Ok::<bool, CheckError>(true) || b == Ok::<bool, CheckError>(true)
                || c == Ok::<bool, CheckError>(true))) by {
                if mis {
                    let name = choose|name: Seq<char>|
                        is_dep_section(name) && #[trigger] secs.contains_key((in_workspace, name))
                            && any_status(secs[(in_workspace, name)], m, overwrite, CheckStatus::Mismatch);
                    assert(name == "dependencies"@ || name == "dev-dependencies"@ || name == "build-dependencies"@);
                }
            }
        }
    }
    let mut has_mismatch = false;
    match a {
        Err(e) => { return Err(e); },
        Ok(x) => { has_mismatch = has_mismatch || x; },
    }
    match b {
        Err(e) => { return Err(e); },
        Ok(x) => { has_mismatch = has_mismatch || x; },
    }
    match c {
        Err(e) => { return Err(e); },
        Ok(x) => { has_mismatch = has_mismatch || x; },
    }
    if has_mismatch {
        Err(CheckError::Mismatch)
    } else {
        Ok(())
    }
}

} // verus!
