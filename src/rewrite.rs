//! Rewriting the dependency tables of a `Cargo.toml` document to a version
//! mapping, through a document that keeps the layout of everything it does not
//! change.
use vstd::prelude::*;

use toml_edit::{DocumentMut, InlineTable, Item, Table, TomlError, Value};

use crate::mapping::{unique_keys, VersionMapping};

verus! {

#[verifier::external_type_specification]
#[verifier::external_body]
pub struct ExDocumentMut(DocumentMut);

#[verifier::external_type_specification]
#[verifier::external_body]
pub struct ExTable(Table);

#[verifier::external_type_specification]
#[verifier::external_body]
pub struct ExInlineTable(InlineTable);

#[verifier::external_type_specification]
#[verifier::external_body]
pub struct ExTomlError(TomlError);

/// What a field of a structured dependency record holds, as far as a rewrite reads it.
#[derive(Debug)]
pub enum FieldKind {
    /// A string value.
    Text(String),
    /// Any other value: a number, a boolean, an array, an inline table, a date;
    /// with its text, laid out as written but without the spacing around it.
    Value(String),
    /// A table or an array of tables.
    Nested,
}

/// A dependency declaration, as far as a rewrite reads it.
#[derive(Debug)]
pub enum Declaration {
    /// A bare version string.
    Text(String),
    /// A structured record: its fields in order, and whether it is an inline
    /// table (or else a standard table).
    Record(Vec<(String, FieldKind)>, bool),
    /// Any other value.
    Other,
}

/// The model of a field.
pub enum FieldView {
    /// A string value.
    Text(Seq<char>),
    /// Any other value, by its text without the spacing around it.
    Value(Seq<char>),
    /// A table or an array of tables.
    Nested,
}

/// The model of a dependency declaration.
pub enum DeclView {
    /// A bare version string.
    Text(Seq<char>),
    /// A structured record: its fields in order, and whether it is an inline table.
    Record(Seq<(Seq<char>, FieldView)>, bool),
    /// Any other value.
    Other,
}

impl View for FieldKind {
    type V = FieldView;

    open spec fn view(&self) -> FieldView {
        match self {
            FieldKind::Text(s) => FieldView::Text(s@),
            FieldKind::Value(t) => FieldView::Value(t@),
            FieldKind::Nested => FieldView::Nested,
        }
    }
}

/// The model of a list of fields.
pub open spec fn fields_view(v: Seq<(String, FieldKind)>) -> Seq<(Seq<char>, FieldView)> {
    v.map_values(|p: (String, FieldKind)| (p.0@, p.1@))
}

impl View for Declaration {
    type V = DeclView;

    open spec fn view(&self) -> DeclView {
        match self {
            Declaration::Text(s) => DeclView::Text(s@),
            Declaration::Record(v, inline) => DeclView::Record(fields_view(v@), *inline),
            Declaration::Other => DeclView::Other,
        }
    }
}

/// The entries of a table with a value, in order: each key with the model of its item.
pub uninterp spec fn table_entries(t: Table) -> Seq<(Seq<char>, DeclView)>;

/// Each entry's item in full (value, representation and spacing), in the
/// order of `table_entries`. An item is named by a number: one fixed
/// numbering of all item values, equal numbers for equal items.
pub uninterp spec fn entry_items(t: Table) -> Seq<int>;

/// Everything of a table but its entries' items, numbered as items are: the
/// table with each non-empty item replaced by one fixed placeholder, so its
/// keys and their layout, their order, and the table's own header and layout.
pub uninterp spec fn table_frame(t: Table) -> int;

/// The number of the item `toml_edit::value` makes of a string.
pub uninterp spec fn string_item(v: Seq<char>) -> int;

/// The number of the item an inline table makes as a value.
pub uninterp spec fn inline_item(it: InlineTable) -> int;

/// The number of the item of a new inline table holding the one string entry `k = v`.
pub uninterp spec fn single_inline_item(k: Seq<char>, v: Seq<char>) -> int;

/// The number of the item of the inline table numbered `inline` once a copy
/// of the value of field `field` of the record item numbered `record` is
/// added to it by `get_or_insert`.
pub uninterp spec fn inline_with_copy(inline: int, record: int, field: Seq<char>) -> int;

/// The number of the item of the inline table numbered `inline` once
/// `InlineTable::fmt` has laid it out.
pub uninterp spec fn inline_formatted(inline: int) -> int;

/// The key/value pairs of an inline table, in order, with the model of each value.
pub uninterp spec fn inline_entries(t: InlineTable) -> Seq<(Seq<char>, FieldView)>;

/// The dependency sections of a document that are tables: keyed by whether
/// they stand under the `workspace` table (or at the root) and by their name,
/// each with its entries.
pub uninterp spec fn dependency_sections(d: DocumentMut) -> Map<
    (bool, Seq<char>),
    Seq<(Seq<char>, DeclView)>,
>;

/// The `entry_items` of each dependency section of a document that is a
/// table, keyed as in `dependency_sections`.
pub uninterp spec fn section_entry_items(d: DocumentMut) -> Map<(bool, Seq<char>), Seq<int>>;

/// The `entry_items` of the dependency sections of the document a text parses to.
pub uninterp spec fn text_entry_items(s: Seq<char>) -> Map<(bool, Seq<char>), Seq<int>>;

/// The `table_frame` of each dependency section of a document that is a
/// table, keyed as in `dependency_sections`.
pub uninterp spec fn section_frames(d: DocumentMut) -> Map<(bool, Seq<char>), int>;

/// The `section_frames` of the document a text parses to.
pub uninterp spec fn text_section_frames(s: Seq<char>) -> Map<(bool, Seq<char>), int>;

/// Everything of a document but its dependency sections, numbered as items
/// are: the document with each dependency section that is a table replaced by
/// `Table::new()`.
pub uninterp spec fn document_frame(d: DocumentMut) -> int;

/// The `document_frame` of the document a text parses to.
pub uninterp spec fn text_document_frame(s: Seq<char>) -> int;

/// The text a document renders to, given its parts: these three together
/// determine the document value, and so what `Display` gives for it.
pub uninterp spec fn assemble(
    frame: int,
    section_frames: Map<(bool, Seq<char>), int>,
    items: Map<(bool, Seq<char>), Seq<int>>,
) -> Seq<char>;

/// Whether a document has a `workspace` table.
pub uninterp spec fn document_has_workspace(d: DocumentMut) -> bool;

/// The text a document renders to.
pub uninterp spec fn document_text(d: DocumentMut) -> Seq<char>;

/// The text a parsed document renders back to. toml_edit keeps comments,
/// spacing and the relative order of items; the order of dotted keys is the
/// one thing it documents as not kept.
pub uninterp spec fn parse_render(s: Seq<char>) -> Seq<char>;

/// Whether a text parses as a TOML document.
pub uninterp spec fn parses_as_document(s: Seq<char>) -> bool;

/// The dependency sections of the document a text parses to.
pub uninterp spec fn text_sections(s: Seq<char>) -> Map<
    (bool, Seq<char>),
    Seq<(Seq<char>, DeclView)>,
>;

/// Whether the document a text parses to has a `workspace` table.
pub uninterp spec fn text_has_workspace(s: Seq<char>) -> bool;

/// The names of the three dependency sections.
pub open spec fn is_dep_section(s: Seq<char>) -> bool {
    s == "dependencies"@ || s == "dev-dependencies"@ || s == "build-dependencies"@
}

/// Whether some entry of a keyed list has key `k`.
pub open spec fn has_key<V>(s: Seq<(Seq<char>, V)>, k: Seq<char>) -> bool {
    exists|i: int| 0 <= i < s.len() && s[i].0 == k
}

/// The value of the entry with key `k` (of some such entry, were keys repeated).
pub open spec fn value_of<V>(s: Seq<(Seq<char>, V)>, k: Seq<char>) -> V {
    s[choose|i: int| 0 <= i < s.len() && s[i].0 == k].1
}

/// The field `k` of a record, if it has one.
pub open spec fn field_of(fs: Seq<(Seq<char>, FieldView)>, k: Seq<char>) -> Option<FieldView> {
    if has_key(fs, k) {
        Some(value_of(fs, k))
    } else {
        None
    }
}

/// `s` with the value of every entry keyed `k` replaced by `v`.
pub open spec fn replace_entry<V>(s: Seq<(Seq<char>, V)>, k: Seq<char>, v: V) -> Seq<(Seq<char>, V)> {
    s.map_values(|e: (Seq<char>, V)| if e.0 == k { (e.0, v) } else { e })
}

/// The fields of a record; none for any other declaration.
pub open spec fn record_fields(d: DeclView) -> Seq<(Seq<char>, FieldView)> {
    match d {
        DeclView::Record(fs, _) => fs,
        _ => Seq::empty(),
    }
}

/// The field `field` of the record keyed `dep` in a list of entries.
pub open spec fn record_field(entries: Seq<(Seq<char>, DeclView)>, dep: Seq<char>, field: Seq<char>) -> FieldView {
    value_of(record_fields(value_of(entries, dep)), field)
}

/// Relies on `Table::iter`: the keys of the table's entries, in order. The keys
/// of a table are distinct.
#[verifier::external_body]
pub(crate) fn table_keys(t: &Table) -> (r: Vec<String>)
    ensures
        r@.len() == table_entries(*t).len(),
        r@.len() == entry_items(*t).len(),
        forall|i: int| 0 <= i < r@.len() ==> #[trigger] r@[i]@ == table_entries(*t)[i].0,
        forall|i: int, j: int| 0 <= i < j < r@.len() ==> r@[i]@ != r@[j]@,
{
    t.iter().map(|(k, _)| k.to_owned()).collect()
}

/// Relies on `Table::get`, `Item::as_table_like`, `TableLike::iter` and
/// `Item::as_str`: the model of the entry `key`. The keys of a record are distinct.
#[verifier::external_body]
pub(crate) fn describe_entry(t: &Table, key: &str) -> (r: Declaration)
    requires
        has_key(table_entries(*t), key@),
    ensures
        r@ == value_of(table_entries(*t), key@),
        r matches Declaration::Record(fs, _) ==> unique_keys(fields_view(fs@)),
{
    let item = t.get(key).unwrap();
    match item.as_table_like() {
        Some(tl) => Declaration::Record(tl.iter().map(|(k, v)| (k.to_owned(), match v {
            Item::Value(Value::String(s)) => FieldKind::Text(s.value().to_owned()),
            Item::Value(v) => FieldKind::Value({ let mut c = v.clone(); c.decor_mut().clear(); c.to_string() }),
            _ => FieldKind::Nested,
        })).collect(), item.is_inline_table()),
        None => match item.as_str() {
            Some(s) => Declaration::Text(s.to_owned()),
            None => Declaration::Other,
        },
    }
}

/// Relies on `Table::get_mut` and `toml_edit::value`: the item of entry `key`
/// becomes the string `v`, where it stood.
#[verifier::external_body]
fn set_entry_text(t: &mut Table, key: &str, v: &str)
    requires
        has_key(table_entries(*old(t)), key@),
    ensures
        table_entries(*final(t)) == replace_entry(table_entries(*old(t)), key@, DeclView::Text(v@)),
        entry_items(*final(t)).len() == entry_items(*old(t)).len(),
        forall|j: int|
            0 <= j < entry_items(*old(t)).len() && table_entries(*old(t))[j].0 != key@
                ==> #[trigger] entry_items(*final(t))[j] == entry_items(*old(t))[j],
        forall|j: int|
            0 <= j < entry_items(*old(t)).len() && table_entries(*old(t))[j].0 == key@
                ==> #[trigger] entry_items(*final(t))[j] == string_item(v@),
        table_frame(*final(t)) == table_frame(*old(t)),
{
    *t.get_mut(key).unwrap() = toml_edit::value(v);
}

/// Relies on `Table::get_mut`: the item of entry `key` becomes the inline
/// table `it`, where it stood.
#[verifier::external_body]
fn set_entry_inline(t: &mut Table, key: &str, it: InlineTable)
    requires
        has_key(table_entries(*old(t)), key@),
    ensures
        table_entries(*final(t)) == replace_entry(
            table_entries(*old(t)),
            key@,
            DeclView::Record(inline_entries(it), true),
        ),
        entry_items(*final(t)).len() == entry_items(*old(t)).len(),
        forall|j: int|
            0 <= j < entry_items(*old(t)).len() && table_entries(*old(t))[j].0 != key@
                ==> #[trigger] entry_items(*final(t))[j] == entry_items(*old(t))[j],
        forall|j: int|
            0 <= j < entry_items(*old(t)).len() && table_entries(*old(t))[j].0 == key@
                ==> #[trigger] entry_items(*final(t))[j] == inline_item(it),
        table_frame(*final(t)) == table_frame(*old(t)),
{
    *t.get_mut(key).unwrap() = Item::Value(Value::InlineTable(it));
}

/// Relies on `InlineTable::new` and `InlineTable::get_or_insert`: an inline
/// table holding the one string entry `k = v`.
#[verifier::external_body]
fn inline_with(k: &str, v: &str) -> (r: InlineTable)
    ensures
        inline_entries(r) == seq![(k@, FieldView::Text(v@))],
        inline_item(r) == single_inline_item(k@, v@),
{
    let mut it = InlineTable::new();
    it.get_or_insert(k, v);
    it
}

/// Relies on `Table::get`, `Item::as_table_like`, `TableLike::get`,
/// `Item::as_value` and `InlineTable::get_or_insert`: a copy of the value of
/// field `field` of record `dep` is added last.
#[verifier::external_body]
fn inline_insert_copy(it: &mut InlineTable, t: &Table, dep: &str, field: &str)
    requires
        has_key(table_entries(*t), dep@),
        value_of(table_entries(*t), dep@) is Record,
        has_key(record_fields(value_of(table_entries(*t), dep@)), field@),
        !(record_field(table_entries(*t), dep@, field@) is Nested),
        !has_key(inline_entries(*old(it)), field@),
    ensures
        inline_entries(*final(it)) == inline_entries(*old(it)).push(
            (field@, record_field(table_entries(*t), dep@, field@)),
        ),
        forall|j: int|
            0 <= j < table_entries(*t).len() && j < entry_items(*t).len() && table_entries(*t)[j].0
                == dep@ ==> #[trigger] inline_item(*final(it)) == inline_with_copy(
                inline_item(*old(it)),
                entry_items(*t)[j],
                field@,
            ),
{
    let v = t.get(dep).and_then(Item::as_table_like).and_then(|tl| tl.get(field)).and_then(
        Item::as_value,
    ).unwrap().clone();
    it.get_or_insert(field, v);
}

/// Relies on `InlineTable::fmt`: only the spacing around keys and values changes.
#[verifier::external_body]
fn inline_fmt(it: &mut InlineTable)
    ensures
        inline_entries(*final(it)) == inline_entries(*old(it)),
        inline_item(*final(it)) == inline_formatted(inline_item(*old(it))),
{
    it.fmt();
}

/// Relies on `DocumentMut`'s `FromStr` and `Display`: the document a text
/// parses to, and what it renders back to before any change.
#[verifier::external_body]
pub(crate) fn parse_document(text: &str) -> (r: Result<DocumentMut, TomlError>)
    ensures
        r is Ok <==> parses_as_document(text@),
        r matches Ok(d) ==> dependency_sections(d) == text_sections(text@),
        r matches Ok(d) ==> document_has_workspace(d) == text_has_workspace(text@),
        r matches Ok(d) ==> document_text(d) == parse_render(text@),
        r matches Ok(d) ==> section_entry_items(d) == text_entry_items(text@),
        r matches Ok(d) ==> section_frames(d) == text_section_frames(text@),
        r matches Ok(d) ==> document_frame(d) == text_document_frame(text@),
{
    text.parse::<DocumentMut>()
}

/// Relies on `Table::get` and `Item::is_table`: whether the root has a `workspace` table.
#[verifier::external_body]
pub(crate) fn has_workspace_table(d: &DocumentMut) -> (r: bool)
    ensures
        r == document_has_workspace(*d),
{
    d.get("workspace").map_or(false, Item::is_table)
}

/// Relies on `Table::get` and `Item::as_table`: the dependency section
/// `section`, under the `workspace` table or at the root, if it is a table.
#[verifier::external_body]
pub(crate) fn get_section<'a>(d: &'a DocumentMut, in_workspace: bool, section: &str) -> (r: Option<&'a Table>)
    requires
        is_dep_section(section@),
    ensures
        r is Some <==> dependency_sections(*d).contains_key((in_workspace, section@)),
        r matches Some(t) ==> table_entries(*t) == dependency_sections(*d)[(in_workspace, section@)],
        r is Some <==> section_entry_items(*d).contains_key((in_workspace, section@)),
        r matches Some(t) ==> entry_items(*t) == section_entry_items(*d)[(in_workspace, section@)],
{
    let scope = if in_workspace { d.get("workspace").and_then(Item::as_table) } else { Some(d.as_table()) };
    scope.and_then(|s| s.get(section)).and_then(Item::as_table)
}

/// Relies on `Table::get_mut`, `Item::as_table_mut` and `std::mem::take`: the
/// dependency section `section` is taken out, an empty table left in its place.
#[verifier::external_body]
fn take_section(d: &mut DocumentMut, in_workspace: bool, section: &str) -> (r: Option<Table>)
    requires
        is_dep_section(section@),
    ensures
        r is Some <==> dependency_sections(*old(d)).contains_key((in_workspace, section@)),
        r matches Some(t) ==> table_entries(t) == dependency_sections(*old(d))[(in_workspace, section@)],
        r is Some ==> dependency_sections(*final(d)) == dependency_sections(*old(d)).insert(
            (in_workspace, section@),
            Seq::empty(),
        ),
        r is None ==> dependency_sections(*final(d)) == dependency_sections(*old(d)),
        document_has_workspace(*final(d)) == document_has_workspace(*old(d)),
        r is Some <==> section_entry_items(*old(d)).contains_key((in_workspace, section@)),
        r matches Some(t) ==> entry_items(t) == section_entry_items(*old(d))[(in_workspace, section@)],
        r is Some ==> section_entry_items(*final(d)) == section_entry_items(*old(d)).insert(
            (in_workspace, section@),
            Seq::empty(),
        ),
        r is None ==> section_entry_items(*final(d)) == section_entry_items(*old(d)),
        r is Some <==> section_frames(*old(d)).contains_key((in_workspace, section@)),
        r matches Some(t) ==> table_frame(t) == section_frames(*old(d))[(in_workspace, section@)],
        r is Some ==> section_frames(*final(d)) == section_frames(*old(d)).insert(
            (in_workspace, section@),
            section_frames(*final(d))[(in_workspace, section@)],
        ),
        r is None ==> section_frames(*final(d)) == section_frames(*old(d)),
        document_frame(*final(d)) == document_frame(*old(d)),
{
    let scope = if in_workspace { d.get_mut("workspace").and_then(Item::as_table_mut) } else { Some(d.as_table_mut()) };
    scope.and_then(|s| s.get_mut(section)).and_then(Item::as_table_mut).map(std::mem::take)
}

/// Relies on `Table::get_mut` and `Item::as_table_mut`: the dependency section
/// `section` becomes `t`, where it stood.
#[verifier::external_body]
fn put_section(d: &mut DocumentMut, in_workspace: bool, section: &str, t: Table)
    requires
        is_dep_section(section@),
        dependency_sections(*old(d)).contains_key((in_workspace, section@)),
    ensures
        dependency_sections(*final(d)) == dependency_sections(*old(d)).insert(
            (in_workspace, section@),
            table_entries(t),
        ),
        document_has_workspace(*final(d)) == document_has_workspace(*old(d)),
        section_entry_items(*final(d)) == section_entry_items(*old(d)).insert(
            (in_workspace, section@),
            entry_items(t),
        ),
        section_frames(*final(d)) == section_frames(*old(d)).insert(
            (in_workspace, section@),
            table_frame(t),
        ),
        document_frame(*final(d)) == document_frame(*old(d)),
{
    let scope = if in_workspace { d.get_mut("workspace").and_then(Item::as_table_mut) } else { Some(d.as_table_mut()) };
    if let Some(slot) = scope.and_then(|s| s.get_mut(section)).and_then(Item::as_table_mut) {
        *slot = t;
    }
}

/// Relies on `DocumentMut`'s `Display`: the text of the document, which is a
/// function of the document's parts.
#[verifier::external_body]
fn render_document(d: &DocumentMut) -> (r: String)
    ensures
        r@ == document_text(*d),
        r@ == assemble(document_frame(*d), section_frames(*d), section_entry_items(*d)),
{
    d.to_string()
}

/// The name a declaration is looked up by: the string `package` field of a
/// record (a renamed dependency), or else its key.
pub open spec fn lookup_name(key: Seq<char>, d: DeclView) -> Seq<char> {
    match d {
        DeclView::Record(fs, _) => match field_of(fs, "package"@) {
            Some(FieldView::Text(p)) => p,
            _ => key,
        },
        _ => key,
    }
}

/// The fields that tie a dependency to a source other than the registry.
pub open spec fn is_source_key(k: Seq<char>) -> bool {
    k == "git"@ || k == "rev"@ || k == "branch"@ || k == "tag"@ || k == "path"@
}

/// Whether a field survives into a rewritten record: it is no source field,
/// not the old version, and directly holds a value.
pub open spec fn kept_field(f: (Seq<char>, FieldView)) -> bool {
    !is_source_key(f.0) && f.0 != "version"@ && !(f.1 is Nested)
}

/// The fields of a record that survive a rewrite, in their order.
pub open spec fn kept_fields(fs: Seq<(Seq<char>, FieldView)>) -> Seq<(Seq<char>, FieldView)>
    decreases fs.len(),
{
    if fs.len() == 0 {
        Seq::empty()
    } else {
        let init = kept_fields(fs.drop_last());
        if kept_field(fs.last()) {
            init.push(fs.last())
        } else {
            init
        }
    }
}

/// The canonical fields of a rewritten record: the version first, then the kept fields.
pub open spec fn canonical_fields(version: Seq<char>, fs: Seq<(Seq<char>, FieldView)>) -> Seq<
    (Seq<char>, FieldView),
> {
    seq![("version"@, FieldView::Text(version))] + kept_fields(fs)
}

/// A declaration after a rewrite to mapping `m`. Unmapped names, local path
/// records (unless `overwrite`) and values of other shapes stay as they are; a
/// bare version becomes the mapped version; a record becomes its canonical form.
pub open spec fn rewrite_decl(
    key: Seq<char>,
    d: DeclView,
    m: Map<Seq<char>, Seq<char>>,
    overwrite: bool,
) -> DeclView {
    let name = lookup_name(key, d);
    if !m.contains_key(name) {
        d
    } else {
        match d {
            DeclView::Record(fs, _) => if !overwrite && has_key(fs, "path"@) {
                d
            } else {
                DeclView::Record(canonical_fields(m[name], fs), true)
            },
            DeclView::Text(_) => DeclView::Text(m[name]),
            DeclView::Other => d,
        }
    }
}

/// Whether a rewrite replaces the declaration: its name is mapped and it is a
/// bare version, or a record that is not a kept local path record.
pub open spec fn touches(key: Seq<char>, d: DeclView, m: Map<Seq<char>, Seq<char>>, overwrite: bool) -> bool {
    m.contains_key(lookup_name(key, d)) && match d {
        DeclView::Record(fs, _) => overwrite || !has_key(fs, "path"@),
        DeclView::Text(_) => true,
        DeclView::Other => false,
    }
}

/// Whether a rewrite replaces some declaration of a table.
pub open spec fn table_touched(
    entries: Seq<(Seq<char>, DeclView)>,
    m: Map<Seq<char>, Seq<char>>,
    overwrite: bool,
) -> bool {
    exists|i: int| 0 <= i < entries.len() && #[trigger] touches(entries[i].0, entries[i].1, m, overwrite)
}

/// Whether a rewrite replaces some declaration of a dependency section in scope.
pub open spec fn sections_touched(
    sections: Map<(bool, Seq<char>), Seq<(Seq<char>, DeclView)>>,
    in_workspace: bool,
    m: Map<Seq<char>, Seq<char>>,
    overwrite: bool,
) -> bool {
    exists|name: Seq<char>|
        is_dep_section(name) && #[trigger] sections.contains_key((in_workspace, name)) && table_touched(
            sections[(in_workspace, name)],
            m,
            overwrite,
        )
}

/// A dependency table after a rewrite: every entry rewritten, keys and order kept.
pub open spec fn rewrite_entries(
    entries: Seq<(Seq<char>, DeclView)>,
    m: Map<Seq<char>, Seq<char>>,
    overwrite: bool,
) -> Seq<(Seq<char>, DeclView)> {
    entries.map_values(|e: (Seq<char>, DeclView)| (e.0, rewrite_decl(e.0, e.1, m, overwrite)))
}

/// The dependency sections after a rewrite: those in scope (under the
/// workspace table when there is one, else at the root) are rewritten.
pub open spec fn rewrite_sections(
    sections: Map<(bool, Seq<char>), Seq<(Seq<char>, DeclView)>>,
    in_workspace: bool,
    m: Map<Seq<char>, Seq<char>>,
    overwrite: bool,
) -> Map<(bool, Seq<char>), Seq<(Seq<char>, DeclView)>> {
    Map::new(
        |k: (bool, Seq<char>)| sections.contains_key(k),
        |k: (bool, Seq<char>)|
            if k.0 == in_workspace && is_dep_section(k.1) {
                rewrite_entries(sections[k], m, overwrite)
            } else {
                sections[k]
            },
    )
}

/// The position of the field named `name`, if the record has one.
pub(crate) fn find_field(fields: &Vec<(String, FieldKind)>, name: &str) -> (r: Option<usize>)
    ensures
        match r {
            Some(j) => j < fields@.len() && fields@[j as int].0@ == name@,
            None => !has_key(fields_view(fields@), name@),
        },
{
    let target = name.to_owned();
    let mut j: usize = 0;
    while j < fields.len()
        invariant
            j <= fields@.len(),
            target@ == name@,
            forall|i: int| 0 <= i < j ==> fields@[i].0@ != name@,
        decreases fields@.len() - j,
    {
        if fields[j].0 == target {
            return Some(j);
        }
        j = j + 1;
    }
    proof {
        assert forall|i: int| 0 <= i < fields@.len() implies fields_view(fields@)[i].0 != name@ by {
            assert(fields@[i].0@ != name@);
        }
    }
    None
}

/// In a list with distinct keys, the value of the entry at `i` is the value of its key.
pub proof fn lemma_value_of_unique<V>(s: Seq<(Seq<char>, V)>, i: int)
    requires
        unique_keys(s),
        0 <= i < s.len(),
    ensures
        has_key(s, s[i].0),
        value_of(s, s[i].0) == s[i].1,
{
    let j = choose|j: int| 0 <= j < s.len() && s[j].0 == s[i].0;
    assert(0 <= j < s.len() && s[j].0 == s[i].0);
}

/// The name the declaration keyed `key` is looked up by.
pub fn rename_deps(d: &Declaration, key: &String) -> (r: String)
    requires
        d matches Declaration::Record(fs, _) ==> unique_keys(fields_view(fs@)),
    ensures
        r@ == lookup_name(key@, d@),
{
    match d {
        Declaration::Record(fields, _) => match find_field(fields, "package") {
            Some(j) => {
                proof {
                    lemma_value_of_unique(fields_view(fields@), j as int);
                }
                match &fields[j].1 {
                    FieldKind::Text(p) => p.clone(),
                    _ => key.clone(),
                }
            },
            None => key.clone(),
        },
        _ => key.clone(),
    }
}

/// A record's fields without those that tie it to another source, in order.
pub open spec fn without_source_keys(fs: Seq<(Seq<char>, FieldView)>) -> Seq<(Seq<char>, FieldView)>
    decreases fs.len(),
{
    if fs.len() == 0 {
        Seq::empty()
    } else {
        let init = without_source_keys(fs.drop_last());
        if is_source_key(fs.last().0) {
            init
        } else {
            init.push(fs.last())
        }
    }
}

/// Removing the source fields first changes nothing of the kept fields; the
/// remaining fields are fields of the record, with distinct keys.
pub proof fn lemma_without_source_keys(fs: Seq<(Seq<char>, FieldView)>)
    requires
        unique_keys(fs),
    ensures
        kept_fields(without_source_keys(fs)) == kept_fields(fs),
        unique_keys(without_source_keys(fs)),
        forall|i: int|
            0 <= i < without_source_keys(fs).len() ==> exists|m: int|
                0 <= m < fs.len() && #[trigger] without_source_keys(fs)[i] == fs[m],
    decreases fs.len(),
{
    if fs.len() > 0 {
        let init = fs.drop_last();
        let last = fs.last();
        assert(unique_keys(init));
        lemma_without_source_keys(init);
        let wi = without_source_keys(init);
        let w = without_source_keys(fs);
        assert forall|i: int| 0 <= i < w.len() implies exists|m: int|
            0 <= m < fs.len() && #[trigger] w[i] == fs[m] by {
            if i < wi.len() {
                let m = choose|m: int| 0 <= m < init.len() && #[trigger] wi[i] == init[m];
                assert(w[i] == fs[m]);
            } else {
                assert(w[i] == fs[fs.len() - 1]);
            }
        }
        if !is_source_key(last.0) {
            assert(w == wi.push(last));
            assert(w.drop_last() =~= wi);
            assert(unique_keys(w)) by {
                assert forall|a: int, b: int| 0 <= a < b < w.len() implies w[a].0 != w[b].0 by {
                    if b == w.len() - 1 {
                        let m = choose|m: int| 0 <= m < init.len() && #[trigger] wi[a] == init[m];
                        assert(fs[m].0 != fs[fs.len() - 1].0);
                    } else {
                        assert(wi[a] == w[a] && wi[b] == w[b]);
                    }
                }
            }
        }
    }
}

/// Takes out the fields `git`, `rev`, `branch`, `tag` and `path`, keeping the
/// order of the rest.
pub fn remove_keys_from_table(fields: &mut Vec<(String, FieldKind)>)
    ensures
        fields_view(final(fields)@) == without_source_keys(fields_view(old(fields)@)),
{
    let ghost start = fields_view(fields@);
    let ghost mut k: int = 0;
    let mut i: usize = 0;
    while i < fields.len()
        invariant
            0 <= i <= fields@.len(),
            0 <= k <= start.len(),
            fields@.len() - i == start.len() - k,
            fields_view(fields@).subrange(0, i as int) == without_source_keys(start.subrange(0, k)),
            fields_view(fields@).subrange(i as int, fields@.len() as int) == start.subrange(k, start.len() as int),
        decreases fields@.len() - i,
    {
        let ghost before = fields_view(fields@);
        proof {
            assert(before[i as int] == start[k]) by {
                assert(before.subrange(i as int, before.len() as int)[0] == start.subrange(k, start.len() as int)[0]);
            }
            assert(start.subrange(0, k + 1).drop_last() =~= start.subrange(0, k));
            assert(start.subrange(0, k + 1).last() == start[k]);
            assert forall|x: int| 0 <= x < before.len() - i implies #[trigger] before[i + x] == start[k + x] by {
                assert(before.subrange(i as int, before.len() as int)[x] == start.subrange(
                    k,
                    start.len() as int,
                )[x]);
            }
        }
        let ghost old_fields = fields@;
        if is_source_field(&fields[i].0) {
            fields.remove(i);
            proof {
                let tail = fields_view(fields@).subrange(i as int, fields@.len() as int);
                let rest = start.subrange(k + 1, start.len() as int);
                assert forall|y: int| 0 <= y < tail.len() implies #[trigger] tail[y] == rest[y] by {
                    assert(fields@[i + y] == old_fields[i + y + 1]);
                    assert(before[i + (y + 1)] == start[k + (y + 1)]);
                }
                assert(fields_view(fields@).subrange(0, i as int) =~= before.subrange(0, i as int));
                assert(fields_view(fields@).subrange(i as int, fields@.len() as int) =~= start.subrange(
                    k + 1,
                    start.len() as int,
                ));
                k = k + 1;
            }
        } else {
            proof {
                let tail = fields_view(fields@).subrange(i as int + 1, fields@.len() as int);
                let rest = start.subrange(k + 1, start.len() as int);
                assert forall|y: int| 0 <= y < tail.len() implies #[trigger] tail[y] == rest[y] by {
                    assert(before[i + (y + 1)] == start[k + (y + 1)]);
                }
                assert(fields_view(fields@).subrange(0, i as int + 1) =~= before.subrange(0, i as int).push(
                    start[k],
                ));
                assert(fields_view(fields@).subrange(i as int + 1, fields@.len() as int) =~= start.subrange(
                    k + 1,
                    start.len() as int,
                ));
                k = k + 1;
            }
            i = i + 1;
        }
    }
    proof {
        assert(start.subrange(k, start.len() as int).len() == 0);
        assert(k == start.len());
        assert(start.subrange(0, k) =~= start);
        assert(fields_view(fields@).subrange(0, i as int) =~= fields_view(fields@));
    }
}

/// The canonical inline table for the record `key` of `t`, built from the
/// record's remaining `fields`: `version` set to `version`, then a copy of each
/// kept field in order, laid out afresh.
fn canonical_inline(
    t: &Table,
    key: &String,
    version: &String,
    fields: &Vec<(String, FieldKind)>,
    Ghost(pos): Ghost<int>,
) -> (r: InlineTable)
    requires
        0 <= pos < table_entries(*t).len(),
        entry_items(*t).len() == table_entries(*t).len(),
        table_entries(*t)[pos].0 == key@,
        unique_keys(table_entries(*t)),
        has_key(table_entries(*t), key@),
        value_of(table_entries(*t), key@) is Record,
        unique_keys(fields_view(fields@)),
        forall|j: int|
            0 <= j < fields@.len() ==> has_key(
                record_fields(value_of(table_entries(*t), key@)),
                #[trigger] fields@[j].0@,
            ) && record_field(table_entries(*t), key@, fields@[j].0@) == fields@[j].1@,
    ensures
        inline_entries(r) == canonical_fields(version@, fields_view(fields@)),
        inline_item(r) == canonical_item(version@, entry_items(*t)[pos], kept_fields(fields_view(fields@))),
{
    let ghost fs = fields_view(fields@);
    let ghost record = entry_items(*t)[pos];
    proof {
        reveal_strlit("version");
    }
    let mut it = inline_with("version", version.as_str());
    assert(kept_fields(fs.subrange(0, 0)) =~= Seq::<(Seq<char>, FieldView)>::empty());
    assert(fs.subrange(0, 0) =~= Seq::<(Seq<char>, FieldView)>::empty());
    assert(inline_entries(it) =~= canonical_fields(version@, fs.subrange(0, 0)));
    let mut j: usize = 0;
    while j < fields.len()
        invariant
            j <= fields@.len(),
            fs == fields_view(fields@),
            unique_keys(fs),
            has_key(table_entries(*t), key@),
            value_of(table_entries(*t), key@) is Record,
            forall|m: int|
                0 <= m < fields@.len() ==> has_key(
                    record_fields(value_of(table_entries(*t), key@)),
                    #[trigger] fields@[m].0@,
                ) && record_field(table_entries(*t), key@, fields@[m].0@) == fields@[m].1@,
            inline_entries(it) == canonical_fields(version@, fs.subrange(0, j as int)),
            0 <= pos < table_entries(*t).len(),
            entry_items(*t).len() == table_entries(*t).len(),
            table_entries(*t)[pos].0 == key@,
            record == entry_items(*t)[pos],
            inline_item(it) == inline_copies(
                single_inline_item("version"@, version@),
                record,
                kept_fields(fs.subrange(0, j as int)),
            ),
            forall|k: Seq<char>| #[trigger] has_key(kept_fields(fs.subrange(0, j as int)), k) ==> has_key(fs.subrange(0, j as int), k),
        decreases fields@.len() - j,
    {
        let ghost prefix = fs.subrange(0, j as int);
        let ghost next = fs.subrange(0, j as int + 1);
        proof {
            assert(next.drop_last() =~= prefix);
            assert(next.last() == fs[j as int]);
        }
        let name = &fields[j].0;
        let keep = match &fields[j].1 {
            FieldKind::Nested => false,
            _ => !is_source_field(name) && *name != "version".to_owned(),
        };
        if keep {
            proof {
                assert(fs[j as int].0 == name@);
                assert(fields@[j as int].0@ == name@);
                assert(!has_key(inline_entries(it), name@)) by {
                    if has_key(inline_entries(it), name@) {
                        let i = choose|i: int| 0 <= i < inline_entries(it).len() && inline_entries(it)[i].0 == name@;
                        if i > 0 {
                            let kept = kept_fields(prefix);
                            assert(kept[i - 1].0 == name@);
                            assert(has_key(kept, name@));
                            let i2 = choose|i2: int| 0 <= i2 < prefix.len() && prefix[i2].0 == name@;
                            assert(fs[i2].0 == fs[j as int].0);
                        }
                    }
                }
            }
            inline_insert_copy(&mut it, t, key.as_str(), name.as_str());
            proof {
                assert(inline_entries(it) =~= canonical_fields(version@, next));
                assert(kept_fields(next).drop_last() =~= kept_fields(prefix));
                assert(kept_fields(next).last() == fs[j as int]);
            }
        } else {
            proof {
                assert(inline_entries(it) =~= canonical_fields(version@, next));
            }
        }
        proof {
            assert forall|k: Seq<char>| #[trigger] has_key(kept_fields(next), k) implies has_key(next, k) by {
                let kept = kept_fields(next);
                let i = choose|i: int| 0 <= i < kept.len() && kept[i].0 == k;
                if i < kept_fields(prefix).len() {
                    assert(kept_fields(prefix)[i].0 == k);
                    assert(has_key(kept_fields(prefix), k));
                    let i2 = choose|i2: int| 0 <= i2 < prefix.len() && prefix[i2].0 == k;
                    assert(next[i2].0 == k);
                } else {
                    assert(next[j as int].0 == k);
                }
            }
        }
        j = j + 1;
    }
    assert(fs.subrange(0, fields@.len() as int) =~= fs);
    inline_fmt(&mut it);
    assert(inline_item(it) == canonical_item(version@, record, kept_fields(fs)));
    it
}

/// Whether a field ties a dependency to a source other than the registry.
pub fn is_source_field(name: &String) -> (r: bool)
    ensures
        r == is_source_key(name@),
{
    *name == "git".to_owned() || *name == "rev".to_owned() || *name == "branch".to_owned() || *name
        == "tag".to_owned() || *name == "path".to_owned()
}

/// In a list with distinct keys, replacing the value of key `s[i].0` changes entry `i` alone.
pub proof fn lemma_replace_entry<V>(s: Seq<(Seq<char>, V)>, i: int, v: V)
    requires
        unique_keys(s),
        0 <= i < s.len(),
    ensures
        replace_entry(s, s[i].0, v) == s.update(i, (s[i].0, v)),
{
    assert(replace_entry(s, s[i].0, v) =~= s.update(i, (s[i].0, v)));
}

/// Rewrites every declaration of a dependency table to the mapping, in place;
/// keys and their order are kept. An entry the rewrite does not replace keeps
/// its item as it was; a bare version becomes the string item of its mapped
/// version; a record becomes an inline table of its canonical fields. The rest
/// of the table is kept, and a table with nothing to replace is left exactly as
/// it was.
pub fn update_table_dependencies(
    dep_table: &mut Table,
    crates_versions: &VersionMapping,
    overwrite: bool,
)
    ensures
        table_entries(*final(dep_table)) == rewrite_entries(
            table_entries(*old(dep_table)),
            crates_versions@,
            overwrite,
        ),
        entry_items(*final(dep_table)).len() == entry_items(*old(dep_table)).len(),
        entry_items(*old(dep_table)).len() == table_entries(*old(dep_table)).len(),
        items_rewritten(
            table_entries(*old(dep_table)),
            entry_items(*old(dep_table)),
            entry_items(*final(dep_table)),
            crates_versions@,
            overwrite,
        ),
        table_frame(*final(dep_table)) == table_frame(*old(dep_table)),
        !table_touched(table_entries(*old(dep_table)), crates_versions@, overwrite)
            ==> *final(dep_table) == *old(dep_table),
{
    let ghost start = table_entries(*dep_table);
    let ghost texts = entry_items(*dep_table);
    let ghost t0 = *dep_table;
    let ghost frame0 = table_frame(*dep_table);
    let keys = table_keys(dep_table);
    assert(unique_keys(start)) by {
        assert forall|a: int, b: int| 0 <= a < b < start.len() implies start[a].0 != start[b].0 by {
            assert(keys@[a]@ == start[a].0 && keys@[b]@ == start[b].0);
        }
    }
    let mut i: usize = 0;
    while i < keys.len()
        invariant
            i <= keys@.len(),
            keys@.len() == start.len(),
            forall|j: int| 0 <= j < keys@.len() ==> #[trigger] keys@[j]@ == start[j].0,
            unique_keys(start),
            table_entries(*dep_table).len() == start.len(),
            forall|j: int|
                0 <= j < i ==> #[trigger] table_entries(*dep_table)[j] == (
                    start[j].0,
                    rewrite_decl(start[j].0, start[j].1, crates_versions@, overwrite),
                ),
            forall|j: int| i <= j < start.len() ==> #[trigger] table_entries(*dep_table)[j] == start[j],
            texts.len() == start.len(),
            entry_items(*dep_table).len() == start.len(),
            forall|j: int|
                0 <= j < i ==> #[trigger] item_rewritten(
                    start[j].0,
                    start[j].1,
                    texts[j],
                    entry_items(*dep_table)[j],
                    crates_versions@,
                    overwrite,
                ),
            forall|j: int| i <= j < start.len() ==> #[trigger] entry_items(*dep_table)[j] == texts[j],
            table_frame(*dep_table) == frame0,
            (forall|j: int| 0 <= j < i ==> !#[trigger] touches(start[j].0, start[j].1, crates_versions@, overwrite))
                ==> *dep_table == t0,
        decreases keys@.len() - i,
    {
        let ghost cur = table_entries(*dep_table);
        let ghost cur_items = entry_items(*dep_table);
        let ghost pre = *dep_table;
        let key = &keys[i];
        assert(keys@[i as int]@ == start[i as int].0);
        assert(cur[i as int] == start[i as int]);
        assert(unique_keys(cur)) by {
            assert forall|a: int, b: int| 0 <= a < b < cur.len() implies cur[a].0 != cur[b].0 by {
                assert(start[a].0 != start[b].0);
                if a < i {
                    assert(cur[a].0 == start[a].0);
                } else {
                    assert(cur[a] == start[a]);
                }
                if b < i {
                    assert(cur[b].0 == start[b].0);
                } else {
                    assert(cur[b] == start[b]);
                }
            }
        }
        proof {
            lemma_value_of_unique(cur, i as int);
        }
        let decl = describe_entry(dep_table, key.as_str());
        let name = rename_deps(&decl, key);
        let ghost target = rewrite_decl(start[i as int].0, start[i as int].1, crates_versions@, overwrite);
        assert(decl@ == start[i as int].1);
        assert(key@ == start[i as int].0);
        match crates_versions.get(name.as_str()) {
            None => {
                assert(table_entries(*dep_table) =~= cur.update(i as int, (start[i as int].0, target)));
            },
            Some(version) => match decl {
                Declaration::Record(mut fields, _) => {
                    proof {
                        reveal_strlit("path");
                    }
                    let path_at = find_field(&fields, "path");
                    if overwrite || path_at.is_none() {
                        let ghost original = fields_view(fields@);
                        remove_keys_from_table(&mut fields);
                        proof {
                            lemma_without_source_keys(original);
                            assert forall|j: int| 0 <= j < fields@.len() implies has_key(
                                record_fields(value_of(table_entries(*dep_table), key@)),
                                #[trigger] fields@[j].0@,
                            ) && record_field(table_entries(*dep_table), key@, fields@[j].0@)
                                == fields@[j].1@ by {
                                let w = fields_view(fields@);
                                assert(w[j] == (fields@[j].0@, fields@[j].1@));
                                let m = choose|m: int| 0 <= m < original.len() && w[j] == original[m];
                                lemma_value_of_unique(original, m);
                            }
                        }
                        let it = canonical_inline(dep_table, key, version, &fields, Ghost(i as int));
                        assert(touches(start[i as int].0, start[i as int].1, crates_versions@, overwrite));
                        set_entry_inline(dep_table, key.as_str(), it);
                        proof {
                            lemma_replace_entry(cur, i as int, DeclView::Record(inline_entries(it), true));
                            assert(cur[i as int].0 == key@);
                            assert(entry_items(*dep_table)[i as int] == inline_item(it));
                            assert(canonical_fields(version@, fields_view(fields@)) =~= canonical_fields(
                                version@,
                                original,
                            ));
                            assert(cur_items[i as int] == texts[i as int]);
                            assert(item_rewritten(
                                start[i as int].0,
                                start[i as int].1,
                                texts[i as int],
                                entry_items(*dep_table)[i as int],
                                crates_versions@,
                                overwrite,
                            ));
                        }
                    } else {
                        let ghost p = path_at->Some_0 as int;
                        assert(fields_view(fields@)[p].0 == "path"@);
                        assert(has_key(fields_view(fields@), "path"@));
                        assert(table_entries(*dep_table) =~= cur.update(i as int, (start[i as int].0, target)));
                    }
                },
                Declaration::Text(_) => {
                    assert(touches(start[i as int].0, start[i as int].1, crates_versions@, overwrite));
                    set_entry_text(dep_table, key.as_str(), version.as_str());
                    proof {
                        lemma_replace_entry(cur, i as int, DeclView::Text(version@));
                        assert(cur[i as int].0 == key@);
                        assert(entry_items(*dep_table)[i as int] == string_item(version@));
                    }
                },
                Declaration::Other => {
                    assert(table_entries(*dep_table) =~= cur.update(i as int, (start[i as int].0, target)));
                },
            },
        }
        assert(table_entries(*dep_table) == cur.update(i as int, (start[i as int].0, target)));
        assert(!touches(start[i as int].0, start[i as int].1, crates_versions@, overwrite) ==> *dep_table == pre);
        assert forall|j: int| 0 <= j < start.len() && j != i implies #[trigger] entry_items(*dep_table)[j]
            == cur_items[j] by {
            assert(cur[j].0 == start[j].0);
            assert(start[j].0 != start[i as int].0);
        }
        assert(item_rewritten(
            start[i as int].0,
            start[i as int].1,
            texts[i as int],
            entry_items(*dep_table)[i as int],
            crates_versions@,
            overwrite,
        ));
        i = i + 1;
    }
    assert(table_entries(*dep_table) =~= rewrite_entries(start, crates_versions@, overwrite));
    assert(!table_touched(start, crates_versions@, overwrite) ==> *dep_table == t0) by {
        if !table_touched(start, crates_versions@, overwrite) {
            assert forall|j: int| 0 <= j < keys@.len() implies !#[trigger] touches(
                start[j].0,
                start[j].1,
                crates_versions@,
                overwrite,
            ) by {}
        }
    }
}

/// The inline table numbered `start` with a copy of each of `fields` of the
/// record item numbered `record` added, in order.
pub open spec fn inline_copies(start: int, record: int, fields: Seq<(Seq<char>, FieldView)>) -> int
    decreases fields.len(),
{
    if fields.len() == 0 {
        start
    } else {
        inline_with_copy(inline_copies(start, record, fields.drop_last()), record, fields.last().0)
    }
}

/// The item a record numbered `record` is rebuilt into: a new inline table
/// with `version` first, then copies of the kept fields, laid out afresh.
pub open spec fn canonical_item(version: Seq<char>, record: int, kept: Seq<(Seq<char>, FieldView)>) -> int {
    inline_formatted(inline_copies(single_inline_item("version"@, version), record, kept))
}

/// Whether `after` is the item a rewrite leaves for the declaration `d` keyed
/// `key` whose item was `before`: the same item when it is not replaced; the
/// string item of the mapped version for a bare version; for a record, the
/// inline table rebuilt from it.
pub open spec fn item_rewritten(
    key: Seq<char>,
    d: DeclView,
    before: int,
    after: int,
    m: Map<Seq<char>, Seq<char>>,
    overwrite: bool,
) -> bool {
    if !touches(key, d, m, overwrite) {
        after == before
    } else {
        match d {
            DeclView::Text(_) => after == string_item(m[lookup_name(key, d)]),
            DeclView::Record(fs, _) => after == canonical_item(
                m[lookup_name(key, d)],
                before,
                kept_fields(fs),
            ),
            DeclView::Other => after == before,
        }
    }
}

/// Whether the items of a table are those a rewrite leaves, entry by entry.
pub open spec fn items_rewritten(
    entries: Seq<(Seq<char>, DeclView)>,
    before: Seq<int>,
    after: Seq<int>,
    m: Map<Seq<char>, Seq<char>>,
    overwrite: bool,
) -> bool {
    after.len() == before.len() && forall|i: int|
        0 <= i < before.len() && i < entries.len() ==> #[trigger] item_rewritten(
            entries[i].0,
            entries[i].1,
            before[i],
            after[i],
            m,
            overwrite,
        )
}

/// Whether the entry items of a document's dependency sections are those a
/// rewrite leaves: sections out of scope keep all of theirs, sections in scope
/// are rewritten entry by entry.
pub open spec fn section_items_rewritten(
    sections: Map<(bool, Seq<char>), Seq<(Seq<char>, DeclView)>>,
    before: Map<(bool, Seq<char>), Seq<int>>,
    after: Map<(bool, Seq<char>), Seq<int>>,
    in_workspace: bool,
    m: Map<Seq<char>, Seq<char>>,
    overwrite: bool,
) -> bool {
    after.dom() == before.dom() && forall|k: (bool, Seq<char>)|
        #[trigger] before.contains_key(k) ==> if k.0 == in_workspace && is_dep_section(k.1)
            && sections.contains_key(k) {
            items_rewritten(sections[k], before[k], after[k], m, overwrite)
        } else {
            after[k] == before[k]
        }
}

/// Whether a rewrite replaces the declaration `d` keyed `key`.
pub fn declaration_touched(
    d: &Declaration,
    key: &String,
    crates_versions: &VersionMapping,
    overwrite: bool,
) -> (r: bool)
    requires
        d matches Declaration::Record(fs, _) ==> unique_keys(fields_view(fs@)),
    ensures
        r == touches(key@, d@, crates_versions@, overwrite),
{
    let name = rename_deps(d, key);
    if !crates_versions.contains_key(name.as_str()) {
        return false;
    }
    match d {
        Declaration::Record(fields, _) => {
            proof {
                reveal_strlit("path");
            }
            let path_at = find_field(fields, "path");
            if overwrite || path_at.is_none() {
                true
            } else {
                proof {
                    let p = path_at->Some_0 as int;
                    assert(fields_view(fields@)[p].0 == "path"@);
                }
                false
            }
        },
        Declaration::Text(_) => true,
        Declaration::Other => false,
    }
}

/// Whether a rewrite replaces some declaration of the table.
pub fn table_needs_rewrite(dep_table: &Table, crates_versions: &VersionMapping, overwrite: bool) -> (r:
    bool)
    ensures
        r == table_touched(table_entries(*dep_table), crates_versions@, overwrite),
{
    let ghost entries = table_entries(*dep_table);
    let keys = table_keys(dep_table);
    assert(unique_keys(entries)) by {
        assert forall|a: int, b: int| 0 <= a < b < entries.len() implies entries[a].0 != entries[b].0 by {
            assert(keys@[a]@ == entries[a].0 && keys@[b]@ == entries[b].0);
        }
    }
    let mut i: usize = 0;
    while i < keys.len()
        invariant
            i <= keys@.len(),
            entries == table_entries(*dep_table),
            keys@.len() == entries.len(),
            forall|j: int| 0 <= j < keys@.len() ==> #[trigger] keys@[j]@ == entries[j].0,
            unique_keys(entries),
            forall|j: int| 0 <= j < i ==> !#[trigger] touches(entries[j].0, entries[j].1, crates_versions@, overwrite),
        decreases keys@.len() - i,
    {
        let key = &keys[i];
        proof {
            lemma_value_of_unique(entries, i as int);
            assert(key@ == entries[i as int].0);
        }
        let decl = describe_entry(dep_table, key.as_str());
        if declaration_touched(&decl, key, crates_versions, overwrite) {
            return true;
        }
        i = i + 1;
    }
    false
}

/// Rewrites one dependency section of a document, if it is a table.
fn rewrite_section(
    doc: &mut DocumentMut,
    in_workspace: bool,
    section: &str,
    crates_versions: &VersionMapping,
    overwrite: bool,
)
    requires
        is_dep_section(section@),
    ensures
        document_has_workspace(*final(doc)) == document_has_workspace(*old(doc)),
        dependency_sections(*old(doc)).contains_key((in_workspace, section@)) ==> dependency_sections(
            *final(doc),
        ) == dependency_sections(*old(doc)).insert(
            (in_workspace, section@),
            rewrite_entries(
                dependency_sections(*old(doc))[(in_workspace, section@)],
                crates_versions@,
                overwrite,
            ),
        ),
        !dependency_sections(*old(doc)).contains_key((in_workspace, section@)) ==> dependency_sections(
            *final(doc),
        ) == dependency_sections(*old(doc)),
        !(dependency_sections(*old(doc)).contains_key((in_workspace, section@)) && table_touched(
            dependency_sections(*old(doc))[(in_workspace, section@)],
            crates_versions@,
            overwrite,
        )) ==> *final(doc) == *old(doc),
        dependency_sections(*old(doc)).contains_key((in_workspace, section@)) ==> section_entry_items(
            *final(doc),
        ) == section_entry_items(*old(doc)).insert(
            (in_workspace, section@),
            section_entry_items(*final(doc))[(in_workspace, section@)],
        ) && section_entry_items(*old(doc)).contains_key((in_workspace, section@)) && items_rewritten(
            dependency_sections(*old(doc))[(in_workspace, section@)],
            section_entry_items(*old(doc))[(in_workspace, section@)],
            section_entry_items(*final(doc))[(in_workspace, section@)],
            crates_versions@,
            overwrite,
        ),
        !dependency_sections(*old(doc)).contains_key((in_workspace, section@)) ==> section_entry_items(
            *final(doc),
        ) == section_entry_items(*old(doc)),
        section_frames(*final(doc)) == section_frames(*old(doc)),
        document_frame(*final(doc)) == document_frame(*old(doc)),
{
    let ghost before = dependency_sections(*doc);
    let ghost texts_before = section_entry_items(*doc);
    let ghost frames_before = section_frames(*doc);
    let needed = match get_section(doc, in_workspace, section) {
        Some(t) => table_needs_rewrite(t, crates_versions, overwrite),
        None => false,
    };
    if !needed {
        proof {
            if before.contains_key((in_workspace, section@)) {
                let e = before[(in_workspace, section@)];
                assert forall|j: int| 0 <= j < e.len() implies #[trigger] rewrite_entries(e, crates_versions@, overwrite)[j] == e[j] by {
                    assert(!touches(e[j].0, e[j].1, crates_versions@, overwrite));
                }
                assert(rewrite_entries(e, crates_versions@, overwrite) =~= e);
                assert(before.insert((in_workspace, section@), e) =~= before);
                assert(texts_before.insert(
                    (in_workspace, section@),
                    texts_before[(in_workspace, section@)],
                ) =~= texts_before);
            }
        }
        return;
    }
    if let Some(mut table) = take_section(doc, in_workspace, section) {
        update_table_dependencies(&mut table, crates_versions, overwrite);
        put_section(doc, in_workspace, section, table);
        assert(section_frames(*doc) =~= frames_before);
        assert(dependency_sections(*doc) =~= before.insert(
            (in_workspace, section@),
            rewrite_entries(before[(in_workspace, section@)], crates_versions@, overwrite),
        ));
    }
}

/// The three dependency section names are distinct.
pub proof fn lemma_dep_sections_distinct()
    ensures
        "dependencies"@ != "dev-dependencies"@,
        "dependencies"@ != "build-dependencies"@,
        "dev-dependencies"@ != "build-dependencies"@,
{
    reveal_strlit("dependencies");
    reveal_strlit("dev-dependencies");
    reveal_strlit("build-dependencies");
    assert("dependencies"@.len() != "dev-dependencies"@.len());
    assert("dependencies"@.len() != "build-dependencies"@.len());
    assert("dev-dependencies"@[1] != "build-dependencies"@[1]);
}

/// Rewrites the dependency sections in scope: those under the `workspace`
/// table when the document has one, else those at the root.
pub fn rewrite_document(doc: &mut DocumentMut, crates_versions: &VersionMapping, overwrite: bool)
    ensures
        dependency_sections(*final(doc)) == rewrite_sections(
            dependency_sections(*old(doc)),
            document_has_workspace(*old(doc)),
            crates_versions@,
            overwrite,
        ),
        document_has_workspace(*final(doc)) == document_has_workspace(*old(doc)),
        !sections_touched(
            dependency_sections(*old(doc)),
            document_has_workspace(*old(doc)),
            crates_versions@,
            overwrite,
        ) ==> *final(doc) == *old(doc),
        section_items_rewritten(
            dependency_sections(*old(doc)),
            section_entry_items(*old(doc)),
            section_entry_items(*final(doc)),
            document_has_workspace(*old(doc)),
            crates_versions@,
            overwrite,
        ),
        section_frames(*final(doc)) == section_frames(*old(doc)),
        document_frame(*final(doc)) == document_frame(*old(doc)),
{
    let ghost before = dependency_sections(*doc);
    let ghost t0 = section_entry_items(*doc);
    let ghost d0 = *doc;
    let in_workspace = has_workspace_table(doc);
    proof {
        reveal_strlit("dependencies");
        reveal_strlit("dev-dependencies");
        reveal_strlit("build-dependencies");
    }
    let ghost untouched = !sections_touched(before, in_workspace, crates_versions@, overwrite);
    rewrite_section(doc, in_workspace, "dependencies", crates_versions, overwrite);
    let ghost d1 = *doc;
    assert(untouched ==> d1 == d0);
    rewrite_section(doc, in_workspace, "dev-dependencies", crates_versions, overwrite);
    let ghost d2 = *doc;
    assert(untouched ==> d2 == d0);
    rewrite_section(doc, in_workspace, "build-dependencies", crates_versions, overwrite);
    assert(untouched ==> *doc == d0);
    proof {
        let t1 = section_entry_items(d1);
        let t2 = section_entry_items(d2);
        let t3 = section_entry_items(*doc);
        let a = (in_workspace, "dependencies"@);
        let b = (in_workspace, "dev-dependencies"@);
        let c = (in_workspace, "build-dependencies"@);
        lemma_dep_sections_distinct();
        assert(t3.dom() =~= t0.dom());
        assert forall|k: (bool, Seq<char>)| #[trigger] t0.contains_key(k) implies if k.0 == in_workspace
            && is_dep_section(k.1) && before.contains_key(k) {
            items_rewritten(before[k], t0[k], t3[k], crates_versions@, overwrite)
        } else {
            t3[k] == t0[k]
        } by {
            if k.0 == in_workspace && is_dep_section(k.1) {
                assert(k == a || k == b || k == c);
            }
        }
    }
    let ghost expected = rewrite_sections(before, in_workspace, crates_versions@, overwrite);
    assert(dependency_sections(*doc) =~= expected) by {
        let a = (in_workspace, "dependencies"@);
        let b = (in_workspace, "dev-dependencies"@);
        let c = (in_workspace, "build-dependencies"@);
        lemma_dep_sections_distinct();
        assert forall|k: (bool, Seq<char>)| #[trigger] expected.contains_key(k) && k.0 == in_workspace
            && is_dep_section(k.1) implies k == a || k == b || k == c by {}
    }
}

/// Whether a rewrite of the document `content` parses to replaces some declaration.
pub open spec fn text_touched(content: Seq<char>, m: Map<Seq<char>, Seq<char>>, overwrite: bool) -> bool {
    sections_touched(text_sections(content), text_has_workspace(content), m, overwrite)
}

/// What a rewrite does to a document's text.
pub enum RewriteOutcome {
    /// The rewritten document renders to the original text.
    Unchanged,
    /// The rewritten document renders to this new text.
    Changed(String),
}

/// Why a document could not be rewritten.
#[derive(Debug)]
pub enum RewriteError {
    /// The text is not a TOML document; the parser's message.
    Malformed(String),
    /// Only a check was asked for, and the document is not up to date.
    NotUpToDate,
}

impl RewriteError {
    /// The message that describes the error.
    pub fn message(&self) -> (r: String)
        ensures
            self is NotUpToDate ==> r@ == "Dependencies are not up to date"@,
            self matches RewriteError::Malformed(m) ==> r@ == m@,
    {
        match self {
            RewriteError::Malformed(m) => m.clone(),
            RewriteError::NotUpToDate => "Dependencies are not up to date".to_owned(),
        }
    }
}

/// Relies on `TomlError`'s `Display`: the parser's message.
#[verifier::external_body]
pub(crate) fn toml_error_message(e: &TomlError) -> String {
    e.to_string()
}

/// Whether the outcome `o` stands for a rewritten document that renders to
/// `rendered`, given the text `original` it was read from.
pub open spec fn outcome_of(o: RewriteOutcome, rendered: Seq<char>, original: Seq<char>) -> bool {
    match o {
        RewriteOutcome::Unchanged => rendered == original,
        RewriteOutcome::Changed(t) => rendered != original && t@ == rendered,
    }
}

/// Rewrites the dependency sections of the document `content` to the mapping
/// and compares the rendered result with `content`, byte for byte.
///
/// The compared text is that of the parsed document with only the replaced
/// entries changed: its frame and the frames of its dependency sections are
/// those of the parsed document, every entry not replaced keeps its item, a
/// replaced bare version holds the string item of its mapped version, and a
/// replaced record an inline table of its canonical fields. When no entry is
/// replaced, the document is the parsed one untouched.
pub fn rewrite(content: &str, crates_versions: &VersionMapping, overwrite: bool) -> (r: Result<
    RewriteOutcome,
    RewriteError,
>)
    ensures
        r is Err <==> !parses_as_document(content@),
        r is Err ==> r matches Err(RewriteError::Malformed(_)),
        r matches Ok(o) ==> exists|d: DocumentMut|
            dependency_sections(d) == rewrite_sections(
                text_sections(content@),
                text_has_workspace(content@),
                crates_versions@,
                overwrite,
            ) && (!text_touched(content@, crates_versions@, overwrite) ==> document_text(d)
                == parse_render(content@)) && section_items_rewritten(
                text_sections(content@),
                text_entry_items(content@),
                section_entry_items(d),
                text_has_workspace(content@),
                crates_versions@,
                overwrite,
            ) && #[trigger] outcome_of(o, document_text(d), content@),
        r is Ok && !text_touched(content@, crates_versions@, overwrite) ==> outcome_of(
            r->Ok_0,
            parse_render(content@),
            content@,
        ),
        r matches Ok(o) ==> exists|items: Map<(bool, Seq<char>), Seq<int>>|
            section_items_rewritten(
                text_sections(content@),
                text_entry_items(content@),
                items,
                text_has_workspace(content@),
                crates_versions@,
                overwrite,
            ) && #[trigger] outcome_of(
                o,
                assemble(text_document_frame(content@), text_section_frames(content@), items),
                content@,
            ),
{
    match parse_document(content) {
        Err(e) => Err(RewriteError::Malformed(toml_error_message(&e))),
        Ok(mut doc) => {
            rewrite_document(&mut doc, crates_versions, overwrite);
            let rendered = render_document(&doc);
            let original = content.to_owned();
            let o = if rendered == original {
                RewriteOutcome::Unchanged
            } else {
                RewriteOutcome::Changed(rendered)
            };
            assert(outcome_of(o, document_text(doc), content@));
            assert(!text_touched(content@, crates_versions@, overwrite) ==> document_text(doc)
                == parse_render(content@));
            assert(section_items_rewritten(
                text_sections(content@),
                text_entry_items(content@),
                section_entry_items(doc),
                text_has_workspace(content@),
                crates_versions@,
                overwrite,
            ));
            assert(outcome_of(
                o,
                assemble(
                    text_document_frame(content@),
                    text_section_frames(content@),
                    section_entry_items(doc),
                ),
                content@,
            ));
            Ok(o)
        },
    }
}

/// Rewrites the document `content` to the mapping: the new text when it
/// differs from `content`, nothing when it does not. With `only_check`, a
/// differing text is an error instead. What holds of the rendered document is
/// as for `rewrite`.
pub fn update_dependencies_impl(
    content: &str,
    crates_versions: &VersionMapping,
    overwrite: bool,
    only_check: bool,
) -> (r: Result<Option<String>, RewriteError>)
    ensures
        r matches Err(RewriteError::Malformed(_)) <==> !parses_as_document(content@),
        parses_as_document(content@) ==> exists|d: DocumentMut|
            dependency_sections(d) == rewrite_sections(
                text_sections(content@),
                text_has_workspace(content@),
                crates_versions@,
                overwrite,
            ) && (!text_touched(content@, crates_versions@, overwrite) ==> document_text(d)
                == parse_render(content@)) && section_items_rewritten(
                text_sections(content@),
                text_entry_items(content@),
                section_entry_items(d),
                text_has_workspace(content@),
                crates_versions@,
                overwrite,
            ) && #[trigger] update_result(
                r,
                document_text(d),
                content@,
                only_check,
            ),
        parses_as_document(content@) && !text_touched(content@, crates_versions@, overwrite)
            ==> update_result(r, parse_render(content@), content@, only_check),
        parses_as_document(content@) ==> exists|items: Map<(bool, Seq<char>), Seq<int>>|
            section_items_rewritten(
                text_sections(content@),
                text_entry_items(content@),
                items,
                text_has_workspace(content@),
                crates_versions@,
                overwrite,
            ) && #[trigger] update_result(
                r,
                assemble(text_document_frame(content@), text_section_frames(content@), items),
                content@,
                only_check,
            ),
{
    let ghost expected = rewrite_sections(
        text_sections(content@),
        text_has_workspace(content@),
        crates_versions@,
        overwrite,
    );
    let result = rewrite(content, crates_versions, overwrite);
    let ghost d = choose|d: DocumentMut|
        dependency_sections(d) == expected && (!text_touched(content@, crates_versions@, overwrite)
            ==> document_text(d) == parse_render(content@)) && section_items_rewritten(
            text_sections(content@),
            text_entry_items(content@),
            section_entry_items(d),
            text_has_workspace(content@),
            crates_versions@,
            overwrite,
        ) && #[trigger] outcome_of(
            result->Ok_0,
            document_text(d),
            content@,
        );
    let r = match result {
        Err(e) => Err(e),
        Ok(RewriteOutcome::Unchanged) => Ok(None),
        Ok(RewriteOutcome::Changed(text)) => {
            if only_check {
                Err(RewriteError::NotUpToDate)
            } else {
                Ok(Some(text))
            }
        },
    };
    assert(parses_as_document(content@) ==> update_result(r, document_text(d), content@, only_check));
    let ghost items = choose|items: Map<(bool, Seq<char>), Seq<int>>|
        section_items_rewritten(
            text_sections(content@),
            text_entry_items(content@),
            items,
            text_has_workspace(content@),
            crates_versions@,
            overwrite,
        ) && #[trigger] outcome_of(
            result->Ok_0,
            assemble(text_document_frame(content@), text_section_frames(content@), items),
            content@,
        );
    assert(parses_as_document(content@) ==> update_result(
        r,
        assemble(text_document_frame(content@), text_section_frames(content@), items),
        content@,
        only_check,
    ));
    r
}

/// Whether `r` is the result of an update whose rewritten document renders to `rendered`.
pub open spec fn update_result(
    r: Result<Option<String>, RewriteError>,
    rendered: Seq<char>,
    original: Seq<char>,
    only_check: bool,
) -> bool {
    if rendered == original {
        r == Ok::<Option<String>, RewriteError>(None)
    } else if only_check {
        r matches Err(RewriteError::NotUpToDate)
    } else {
        r matches Ok(Some(t)) && t@ == rendered
    }
}

/// Keeping fields distributes over concatenation.
pub proof fn lemma_kept_concat(a: Seq<(Seq<char>, FieldView)>, b: Seq<(Seq<char>, FieldView)>)
    ensures
        kept_fields(a + b) == kept_fields(a) + kept_fields(b),
    decreases b.len(),
{
    if b.len() == 0 {
        assert(a + b =~= a);
        assert(kept_fields(a) + kept_fields(b) =~= kept_fields(a));
    } else {
        assert((a + b).drop_last() =~= a + b.drop_last());
        assert((a + b).last() == b.last());
        lemma_kept_concat(a, b.drop_last());
        if kept_field(b.last()) {
            assert(kept_fields(a) + kept_fields(b) =~= (kept_fields(a) + kept_fields(b.drop_last())).push(
                b.last(),
            ));
        }
    }
}

/// Every kept field is kept again, so keeping twice keeps the same fields.
pub proof fn lemma_kept_idempotent(s: Seq<(Seq<char>, FieldView)>)
    ensures
        kept_fields(kept_fields(s)) == kept_fields(s),
    decreases s.len(),
{
    if s.len() > 0 {
        lemma_kept_idempotent(s.drop_last());
        let init = kept_fields(s.drop_last());
        if kept_field(s.last()) {
            assert(init.push(s.last()).drop_last() =~= init);
        }
    }
}

/// The kept fields of a record with distinct keys have distinct keys, and a
/// key is among them exactly when its field is kept.
pub proof fn lemma_kept_lookup(s: Seq<(Seq<char>, FieldView)>)
    requires
        unique_keys(s),
    ensures
        unique_keys(kept_fields(s)),
        forall|k: Seq<char>|
            #[trigger] has_key(kept_fields(s), k) <==> (has_key(s, k) && kept_field((k, value_of(s, k)))),
        forall|k: Seq<char>| #[trigger] has_key(kept_fields(s), k) ==> value_of(kept_fields(s), k) == value_of(s, k),
    decreases s.len(),
{
    if s.len() > 0 {
        let init = s.drop_last();
        let last = s.last();
        assert(unique_keys(init));
        lemma_kept_lookup(init);
        let ki = kept_fields(init);
        let ks = kept_fields(s);
        assert(!has_key(init, last.0)) by {
            if has_key(init, last.0) {
                let j = choose|j: int| 0 <= j < init.len() && init[j].0 == last.0;
                assert(s[j].0 == s[s.len() - 1].0);
            }
        }
        assert forall|k: Seq<char>| has_key(s, k) && k != last.0 implies has_key(init, k) && value_of(s, k)
            == value_of(init, k) by {
            let j = choose|j: int| 0 <= j < s.len() && s[j].0 == k;
            assert(init[j].0 == k);
            lemma_value_of_unique(s, j);
            lemma_value_of_unique(init, j);
        }
        assert forall|k: Seq<char>| has_key(init, k) implies has_key(s, k) by {
            let j = choose|j: int| 0 <= j < init.len() && init[j].0 == k;
            assert(s[j].0 == k);
        }
        lemma_value_of_unique(s, s.len() - 1);
        if kept_field(last) {
            assert(ks == ki.push(last));
            assert(unique_keys(ks)) by {
                assert forall|a: int, b: int| 0 <= a < b < ks.len() implies ks[a].0 != ks[b].0 by {
                    if b == ks.len() - 1 {
                        assert(ki[a].0 == ks[a].0);
                        if ks[a].0 == last.0 {
                            assert(has_key(ki, last.0));
                        }
                    } else {
                        assert(ki[a] == ks[a] && ki[b] == ks[b]);
                    }
                }
            }
            assert forall|k: Seq<char>| #[trigger] has_key(ks, k) <==> (has_key(s, k) && kept_field((k, value_of(s, k)))) by {
                if has_key(ks, k) && k != last.0 {
                    let j = choose|j: int| 0 <= j < ks.len() && ks[j].0 == k;
                    assert(ki[j].0 == k);
                }
                if has_key(ki, k) {
                    let j = choose|j: int| 0 <= j < ki.len() && ki[j].0 == k;
                    assert(ks[j].0 == k);
                }
                if k == last.0 {
                    assert(ks[ks.len() - 1].0 == k);
                }
            }
            assert forall|k: Seq<char>| #[trigger] has_key(ks, k) implies value_of(ks, k) == value_of(s, k) by {
                let j = choose|j: int| 0 <= j < ks.len() && ks[j].0 == k;
                lemma_value_of_unique(ks, j);
                if j < ki.len() {
                    assert(ki[j] == ks[j]);
                    lemma_value_of_unique(ki, j);
                }
            }
        } else {
            assert forall|k: Seq<char>| #[trigger] has_key(ks, k) <==> (has_key(s, k) && kept_field((k, value_of(s, k)))) by {
                if k == last.0 {
                    assert(!has_key(ki, k));
                }
            }
        }
    }
}

/// Whether every structured record among the entries has distinct field keys,
/// as the records of a TOML document do.
pub open spec fn records_well_formed(entries: Seq<(Seq<char>, DeclView)>) -> bool {
    forall|i: int| 0 <= i < entries.len() ==> #[trigger] unique_keys(record_fields(entries[i].1))
}

/// A rewritten declaration is looked up by the same name as before.
pub proof fn lemma_rewrite_keeps_name(
    key: Seq<char>,
    d: DeclView,
    m: Map<Seq<char>, Seq<char>>,
    overwrite: bool,
)
    requires
        unique_keys(record_fields(d)),
    ensures
        lookup_name(key, rewrite_decl(key, d, m, overwrite)) == lookup_name(key, d),
        unique_keys(record_fields(rewrite_decl(key, d, m, overwrite))),
{
    let name = lookup_name(key, d);
    if m.contains_key(name) {
        if let DeclView::Record(fs, _) = d {
            if overwrite || !has_key(fs, "path"@) {
                let c = canonical_fields(m[name], fs);
                let kept = kept_fields(fs);
                lemma_kept_lookup(fs);
                let pk = "package"@;
                assert(pk != "version"@) by {
                    reveal_strlit("package");
                    reveal_strlit("version");
                    assert(pk[0] != "version"@[0]);
                }
                assert(unique_keys(c)) by {
                    assert forall|a: int, b: int| 0 <= a < b < c.len() implies c[a].0 != c[b].0 by {
                        assert(c[b] == kept[b - 1]);
                        if a > 0 {
                            assert(c[a] == kept[a - 1]);
                        } else {
                            assert(kept_field(kept[b - 1])) by {
                                assert(has_key(kept, kept[b - 1].0));
                                lemma_value_of_unique(kept, b - 1);
                            }
                        }
                    }
                }
                assert(has_key(c, pk) <==> has_key(kept, pk)) by {
                    if has_key(c, pk) {
                        let j = choose|j: int| 0 <= j < c.len() && c[j].0 == pk;
                        assert(j > 0);
                        assert(kept[j - 1].0 == pk);
                    }
                    if has_key(kept, pk) {
                        let j = choose|j: int| 0 <= j < kept.len() && kept[j].0 == pk;
                        assert(c[j + 1].0 == pk);
                    }
                }
                assert(!is_source_key(pk)) by {
                    reveal_strlit("package");
                    reveal_strlit("git");
                    reveal_strlit("rev");
                    reveal_strlit("branch");
                    reveal_strlit("tag");
                    reveal_strlit("path");
                    assert(pk.len() == 7);
                }
                if has_key(kept, pk) {
                    let j = choose|j: int| 0 <= j < kept.len() && kept[j].0 == pk;
                    lemma_value_of_unique(kept, j);
                    lemma_value_of_unique(c, j + 1);
                    assert(c[j + 1] == kept[j]);
                    assert(field_of(c, pk) == field_of(fs, pk));
                } else if has_key(fs, pk) {
                    assert(value_of(fs, pk) is Nested);
                }
            }
        }
    }
}

/// Rewriting is idempotent: rewriting an already rewritten table with the same
/// mapping and flag changes nothing.
pub proof fn rewrite_is_idempotent(
    entries: Seq<(Seq<char>, DeclView)>,
    m: Map<Seq<char>, Seq<char>>,
    overwrite: bool,
)
    requires
        records_well_formed(entries),
    ensures
        rewrite_entries(rewrite_entries(entries, m, overwrite), m, overwrite) == rewrite_entries(
            entries,
            m,
            overwrite,
        ),
{
    let once = rewrite_entries(entries, m, overwrite);
    assert forall|i: int| 0 <= i < entries.len() implies rewrite_decl(once[i].0, once[i].1, m, overwrite)
        == once[i].1 by {
        let key = entries[i].0;
        let d = entries[i].1;
        assert(unique_keys(record_fields(d)));
        lemma_rewrite_keeps_name(key, d, m, overwrite);
        let name = lookup_name(key, d);
        if m.contains_key(name) {
            if let DeclView::Record(fs, _) = d {
                if overwrite || !has_key(fs, "path"@) {
                    let v = m[name];
                    let c = canonical_fields(v, fs);
                    let version_field = seq![("version"@, FieldView::Text(v))];
                    assert(c == version_field + kept_fields(fs));
                    lemma_kept_concat(version_field, kept_fields(fs));
                    assert(version_field.drop_last() =~= Seq::<(Seq<char>, FieldView)>::empty());
                    assert(kept_fields(Seq::<(Seq<char>, FieldView)>::empty()) == Seq::<(Seq<char>, FieldView)>::empty());
                    assert(!kept_field(version_field.last()));
                    assert(kept_fields(version_field) =~= Seq::<(Seq<char>, FieldView)>::empty());
                    lemma_kept_idempotent(fs);
                    assert(kept_fields(c) =~= kept_fields(fs));
                    assert(!has_key(c, "path"@)) by {
                        if has_key(c, "path"@) {
                            let j = choose|j: int| 0 <= j < c.len() && c[j].0 == "path"@;
                            if j == 0 {
                                reveal_strlit("path");
                                reveal_strlit("version");
                                assert("path"@[0] != "version"@[0]);
                            } else {
                                let kept = kept_fields(fs);
                                lemma_kept_lookup(fs);
                                assert(kept[j - 1].0 == "path"@);
                                assert(has_key(kept, "path"@));
                            }
                        }
                    }
                }
            }
        }
    }
    assert(rewrite_entries(once, m, overwrite) =~= once);
}

/// Entries outside the mapping are kept: a declaration whose lookup name has
/// no version in the mapping is the same after a rewrite, and every entry keeps
/// its key and place.
pub proof fn unmapped_entries_unchanged(
    entries: Seq<(Seq<char>, DeclView)>,
    m: Map<Seq<char>, Seq<char>>,
    overwrite: bool,
)
    ensures
        rewrite_entries(entries, m, overwrite).len() == entries.len(),
        forall|i: int|
            0 <= i < entries.len() ==> (#[trigger] rewrite_entries(entries, m, overwrite)[i]).0
                == entries[i].0,
        forall|i: int|
            0 <= i < entries.len() && !m.contains_key(lookup_name(entries[i].0, entries[i].1))
                ==> #[trigger] rewrite_entries(entries, m, overwrite)[i] == entries[i],
{
}

/// A rewritten record is in canonical form: an inline table whose first field
/// is the mapped version, with no field that ties it to another source and no
/// other `version` field.
pub proof fn rewritten_record_is_canonical(
    key: Seq<char>,
    fs: Seq<(Seq<char>, FieldView)>,
    inline: bool,
    m: Map<Seq<char>, Seq<char>>,
    overwrite: bool,
)
    requires
        m.contains_key(lookup_name(key, DeclView::Record(fs, inline))),
        overwrite || !has_key(fs, "path"@),
    ensures
        rewrite_decl(key, DeclView::Record(fs, inline), m, overwrite) matches DeclView::Record(out, true)
            && out.len() >= 1 && out[0] == ("version"@, FieldView::Text(
            m[lookup_name(key, DeclView::Record(fs, inline))],
        ))
            && (forall|j: int| 0 <= j < out.len() ==> !is_source_key(#[trigger] out[j].0))
            && (forall|j: int| 1 <= j < out.len() ==> #[trigger] out[j].0 != "version"@),
{
    let out = canonical_fields(m[lookup_name(key, DeclView::Record(fs, inline))], fs);
    let kept = kept_fields(fs);
    assert forall|j: int| 1 <= j < out.len() implies kept_field(#[trigger] out[j]) by {
        lemma_kept_are_kept(fs, j - 1);
    }
    assert(!is_source_key(out[0].0)) by {
        reveal_strlit("version");
        reveal_strlit("git");
        reveal_strlit("rev");
        reveal_strlit("branch");
        reveal_strlit("tag");
        reveal_strlit("path");
        assert("version"@[0] != "git"@[0] && "version"@[0] != "rev"@[0] && "version"@[0] != "branch"@[0]
            && "version"@[0] != "tag"@[0] && "version"@[0] != "path"@[0]);
    }
}

/// Every kept field passes the keep test.
pub proof fn lemma_kept_are_kept(s: Seq<(Seq<char>, FieldView)>, j: int)
    requires
        0 <= j < kept_fields(s).len(),
    ensures
        kept_field(kept_fields(s)[j]),
    decreases s.len(),
{
    if s.len() > 0 {
        let init = kept_fields(s.drop_last());
        if j < init.len() {
            lemma_kept_are_kept(s.drop_last(), j);
        }
    }
}

/// Local path records are preserved: without `overwrite`, a record with a
/// `path` field is left as it is, whatever the mapping holds.
pub proof fn path_records_preserved(
    key: Seq<char>,
    fs: Seq<(Seq<char>, FieldView)>,
    inline: bool,
    m: Map<Seq<char>, Seq<char>>,
)
    requires
        has_key(fs, "path"@),
    ensures
        rewrite_decl(key, DeclView::Record(fs, inline), m, false) == DeclView::Record(fs, inline),
{
}

/// Renamed dependencies are looked up by their package: a record keyed `key`
/// whose `package` field is the string `p` takes the version of `p`, not of `key`.
pub proof fn renamed_record_uses_package(
    key: Seq<char>,
    fs: Seq<(Seq<char>, FieldView)>,
    inline: bool,
    p: Seq<char>,
    m: Map<Seq<char>, Seq<char>>,
    overwrite: bool,
)
    requires
        unique_keys(fs),
        has_key(fs, "package"@),
        value_of(fs, "package"@) == FieldView::Text(p),
        m.contains_key(p),
        overwrite || !has_key(fs, "path"@),
    ensures
        lookup_name(key, DeclView::Record(fs, inline)) == p,
        rewrite_decl(key, DeclView::Record(fs, inline), m, overwrite) == DeclView::Record(
            canonical_fields(m[p], fs),
            true,
        ),
{
}

/// Rewriting a document's dependency sections is idempotent: a second rewrite
/// with the same mapping and flag leaves the sections as the first left them.
pub proof fn rewrite_sections_idempotent(
    sections: Map<(bool, Seq<char>), Seq<(Seq<char>, DeclView)>>,
    in_workspace: bool,
    m: Map<Seq<char>, Seq<char>>,
    overwrite: bool,
)
    requires
        forall|k: (bool, Seq<char>)| #[trigger] sections.contains_key(k) ==> records_well_formed(sections[k]),
    ensures
        rewrite_sections(rewrite_sections(sections, in_workspace, m, overwrite), in_workspace, m, overwrite)
            == rewrite_sections(sections, in_workspace, m, overwrite),
{
    let once = rewrite_sections(sections, in_workspace, m, overwrite);
    assert forall|k: (bool, Seq<char>)| #[trigger] once.contains_key(k) && k.0 == in_workspace && is_dep_section(k.1)
        implies rewrite_entries(once[k], m, overwrite) == once[k] by {
        rewrite_is_idempotent(sections[k], m, overwrite);
    }
    assert(rewrite_sections(once, in_workspace, m, overwrite) =~= once);
}

} // verus!
