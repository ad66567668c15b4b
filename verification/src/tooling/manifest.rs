//! The path dependencies that a package manifest names.
use vstd::prelude::*;

use crate::order;
use crate::text::{same, texts, trim, trimmed};

verus! {

/// A value of a manifest.
pub enum ManifestValue {
    Text(String),
    Table(Vec<ManifestEntry>),
    Array(Vec<ManifestValue>),
    Other,
}

/// A key of a table with its value.
pub struct ManifestEntry {
    pub key: String,
    pub value: ManifestValue,
}

/// The keys under which dependencies are listed.
pub open spec fn lists_dependencies(key: Seq<char>) -> bool {
    ||| key == "dependencies"@
    ||| key == "dev-dependencies"@
    ||| key == "build-dependencies"@
}

fn is_dependency_key(key: &str) -> (found: bool)
    ensures
        found == lists_dependencies(key@),
{
    same(key, "dependencies") || same(key, "dev-dependencies") || same(key, "build-dependencies")
}

/// The contents of a manifest.
pub enum ManifestParts {
    Text(Seq<char>),
    Table(Seq<(Seq<char>, ManifestParts)>),
    Array(Seq<ManifestParts>),
    Other,
}

/// The contents of a value.
pub open spec fn parts_of(value: ManifestValue) -> ManifestParts
    decreases value,
{
    match value {
        ManifestValue::Text(text) => ManifestParts::Text(text@),
        ManifestValue::Table(entries) => ManifestParts::Table(
            Seq::new(
                entries@.len(),
                |i: int|
                    if 0 <= i < entries@.len() {
                        (entries@[i].key@, parts_of(entries@[i].value))
                    } else {
                        arbitrary()
                    },
            ),
        ),
        ManifestValue::Array(items) => ManifestParts::Array(
            Seq::new(
                items@.len(),
                |i: int|
                    if 0 <= i < items@.len() {
                        parts_of(items@[i])
                    } else {
                        arbitrary()
                    },
            ),
        ),
        ManifestValue::Other => ManifestParts::Other,
    }
}

/// An entry that gives a path.
pub open spec fn is_path(entry: (Seq<char>, ManifestParts), path: Seq<char>) -> bool {
    entry.0 == "path"@ && match entry.1 {
        ManifestParts::Text(text) => trimmed(text) == path,
        _ => false,
    }
}

/// A dependency that is found by a path.
pub open spec fn gives_path(dependency: ManifestParts, path: Seq<char>) -> bool {
    dependency matches ManifestParts::Table(entries) && path.len() > 0 && exists|i: int|
        0 <= i < entries.len() && is_path(#[trigger] entries[i], path)
}

/// A list of dependencies with one that is found by a path.
pub open spec fn lists_path(list: ManifestParts, path: Seq<char>) -> bool {
    list matches ManifestParts::Table(entries) && exists|i: int|
        0 <= i < entries.len() && gives_path((#[trigger] entries[i]).1, path)
}

/// A value in which, at any depth, a list of dependencies names a path.
pub open spec fn names_path(value: ManifestParts, path: Seq<char>) -> bool
    decreases value,
{
    match value {
        ManifestParts::Table(entries) => {
            ||| exists|i: int|
                0 <= i < entries.len() && lists_dependencies((#[trigger] entries[i]).0)
                    && lists_path(entries[i].1, path)
            ||| exists|i: int|
                0 <= i < entries.len() && names_path((#[trigger] entries[i]).1, path)
        },
        ManifestParts::Array(items) => exists|i: int|
            0 <= i < items.len() && names_path(#[trigger] items[i], path),
        _ => false,
    }
}

/// Adds the path of one dependency.
fn collect_dependency_path(dependency: &ManifestValue, out: &mut Vec<String>)
    requires
        order::ascending(texts(old(out)@)),
    ensures
        order::ascending(texts(final(out)@)),
        forall|t: Seq<char>| #[trigger]
            texts(final(out)@).contains(t) <==> texts(old(out)@).contains(t) || gives_path(
                parts_of(*dependency),
                t,
            ),
{
    if let ManifestValue::Table(entries) = dependency {
        let ghost parts = parts_of(*dependency)->Table_0;
        let mut i: usize = 0;
        while i < entries.len()
            invariant
                *dependency == ManifestValue::Table(*entries),
                parts == parts_of(*dependency)->Table_0,
                parts.len() == entries@.len(),
                i <= entries@.len(),
                order::ascending(texts(out@)),
                forall|t: Seq<char>| #[trigger]
                    texts(out@).contains(t) <==> texts(old(out)@).contains(t) || t.len() > 0
                        && exists|k: int| 0 <= k < i && is_path(#[trigger] parts[k], t),
            decreases entries@.len() - i,
        {
            let ghost before = texts(out@);
            assert(parts[i as int] == (entries@[i as int].key@, parts_of(
                entries@[i as int].value,
            )));
            if same(entries[i].key.as_str(), "path") {
                if let ManifestValue::Text(text) = &entries[i].value {
                    let path = trim(text.as_str());
                    assert(is_path(parts[i as int], path@));
                    if crate::text::chars_of(path.as_str()).len() > 0 {
                        order::insert(out, path);
                    }
                }
            }
            i = i + 1;
        }
    }
}

/// Adds the paths of a list of dependencies.
fn collect_dep_table_paths(list: &ManifestValue, out: &mut Vec<String>)
    requires
        order::ascending(texts(old(out)@)),
    ensures
        order::ascending(texts(final(out)@)),
        forall|t: Seq<char>| #[trigger]
            texts(final(out)@).contains(t) <==> texts(old(out)@).contains(t) || lists_path(
                parts_of(*list),
                t,
            ),
{
    if let ManifestValue::Table(entries) = list {
        let ghost parts = parts_of(*list)->Table_0;
        let mut i: usize = 0;
        while i < entries.len()
            invariant
                *list == ManifestValue::Table(*entries),
                parts == parts_of(*list)->Table_0,
                parts.len() == entries@.len(),
                i <= entries@.len(),
                order::ascending(texts(out@)),
                forall|t: Seq<char>| #[trigger]
                    texts(out@).contains(t) <==> texts(old(out)@).contains(t) || exists|k: int|
                        0 <= k < i && gives_path((#[trigger] parts[k]).1, t),
            decreases entries@.len() - i,
        {
            assert(parts[i as int] == (entries@[i as int].key@, parts_of(
                entries@[i as int].value,
            )));
            collect_dependency_path(&entries[i].value, out);
            i = i + 1;
        }
    }
}

/// Adds every path that a manifest names to an ordered list.
pub fn collect_manifest_path_dependencies(value: &ManifestValue, out: &mut Vec<String>)
    requires
        order::ascending(texts(old(out)@)),
    ensures
        order::ascending(texts(final(out)@)),
        forall|t: Seq<char>| #[trigger]
            texts(final(out)@).contains(t) <==> texts(old(out)@).contains(t) || names_path(
                parts_of(*value),
                t,
            ),
    decreases *value,
{
    match value {
        ManifestValue::Table(entries) => {
            let ghost parts = parts_of(*value)->Table_0;
            let mut i: usize = 0;
            while i < entries.len()
                invariant
                    *value == ManifestValue::Table(*entries),
                    parts == parts_of(*value)->Table_0,
                    parts.len() == entries@.len(),
                    i <= entries@.len(),
                    order::ascending(texts(out@)),
                    forall|t: Seq<char>| #[trigger]
                        texts(out@).contains(t) <==> texts(old(out)@).contains(t) || exists|k: int|
                            0 <= k < i && (lists_dependencies((#[trigger] parts[k]).0)
                                && lists_path(parts[k].1, t) || names_path(parts[k].1, t)),
                decreases entries@.len() - i,
            {
                assert(parts[i as int] == (entries@[i as int].key@, parts_of(
                    entries@[i as int].value,
                )));
                if is_dependency_key(entries[i].key.as_str()) {
                    collect_dep_table_paths(&entries[i].value, out);
                }
                assert(decreases_to!(*value => value->Table_0));
                assert(decreases_to!(value->Table_0 => value->Table_0@));
                assert(decreases_to!(value->Table_0@ => value->Table_0@[i as int]));
                assert(decreases_to!(value->Table_0@[i as int] => value->Table_0@[i as int].value));
                collect_manifest_path_dependencies(&entries[i].value, out);
                i = i + 1;
            }
        },
        ManifestValue::Array(items) => {
            let ghost parts = parts_of(*value)->Array_0;
            let mut i: usize = 0;
            while i < items.len()
                invariant
                    *value == ManifestValue::Array(*items),
                    parts == parts_of(*value)->Array_0,
                    parts.len() == items@.len(),
                    i <= items@.len(),
                    order::ascending(texts(out@)),
                    forall|t: Seq<char>| #[trigger]
                        texts(out@).contains(t) <==> texts(old(out)@).contains(t) || exists|k: int|
                            0 <= k < i && names_path(#[trigger] parts[k], t),
                decreases items@.len() - i,
            {
                assert(parts[i as int] == parts_of(items@[i as int]));
                assert(decreases_to!(*value => value->Array_0));
                assert(decreases_to!(value->Array_0 => value->Array_0@));
                assert(decreases_to!(value->Array_0@ => value->Array_0@[i as int]));
                collect_manifest_path_dependencies(&items[i], out);
                i = i + 1;
            }
        },
        _ => {},
    }
}

/// The paths that a manifest names, in order.
pub fn manifest_path_dependencies(value: &ManifestValue) -> (paths: Vec<String>)
    ensures
        order::ascending(texts(paths@)),
        forall|t: Seq<char>| #[trigger]
            texts(paths@).contains(t) <==> names_path(parts_of(*value), t),
{
    let mut paths: Vec<String> = Vec::new();
    assert(texts(paths@) =~= Seq::<Seq<char>>::empty());
    collect_manifest_path_dependencies(value, &mut paths);
    paths
}

/// `toml::Value`, a parsed document or a part of one.
#[verifier::external_type_specification]
#[verifier::external_body]
pub struct ExTomlValue(toml::Value);

/// What `toml::from_str` makes of a text: the document, or the words of its
/// error.
pub uninterp spec fn toml_parts(raw: Seq<char>) -> Result<ManifestParts, Seq<char>>;

/// A `toml::Value` with its texts, tables and arrays kept, and everything else
/// as `Other`. The keys of a table come in the order of the table.
#[verifier::external_body]
fn manifest_value(value: toml::Value) -> ManifestValue {
    match value {
        toml::Value::String(text) => ManifestValue::Text(text),
        toml::Value::Array(items) => ManifestValue::Array(
            items.into_iter().map(manifest_value).collect(),
        ),
        toml::Value::Table(table) => ManifestValue::Table(
            table.into_iter().map(
                |(key, value)| ManifestEntry { key, value: manifest_value(value) },
            ).collect(),
        ),
        _ => ManifestValue::Other,
    }
}

/// `toml::from_str` for a `toml::Value`. Which texts are documents, and what
/// they hold, is a function of the text alone.
#[verifier::external_body]
fn parse_toml(raw: &str) -> (result: Result<ManifestValue, String>)
    ensures
        match result {
            Ok(value) => toml_parts(raw@) == Ok::<ManifestParts, Seq<char>>(parts_of(value)),
            Err(message) => toml_parts(raw@) == Err::<ManifestParts, Seq<char>>(message@),
        },
{
    match toml::from_str::<toml::Value>(raw) {
        Ok(value) => Ok(manifest_value(value)),
        Err(error) => Err(error.to_string()),
    }
}

/// The paths that the text of a manifest names, in order.
pub fn manifest_text_dependencies(raw: &str) -> (result: Result<Vec<String>, String>)
    ensures
        match result {
            Ok(paths) => {
                &&& toml_parts(raw@) is Ok
                &&& order::ascending(texts(paths@))
                &&& forall|t: Seq<char>| #[trigger]
                    texts(paths@).contains(t) <==> names_path(toml_parts(raw@)->Ok_0, t)
            },
            Err(message) => toml_parts(raw@) == Err::<ManifestParts, Seq<char>>(message@),
        },
{
    match parse_toml(raw) {
        Ok(value) => Ok(manifest_path_dependencies(&value)),
        Err(message) => Err(message),
    }
}

/// The lists of dependencies are the three under these keys.
pub proof fn law_the_lists_of_dependencies(key: Seq<char>)
    ensures
        lists_dependencies(key) <==> seq![
            "dependencies"@,
            "dev-dependencies"@,
            "build-dependencies"@,
        ].contains(key),
{
    let keys = seq!["dependencies"@, "dev-dependencies"@, "build-dependencies"@];
    assert(keys[0] == "dependencies"@ && keys[1] == "dev-dependencies"@ && keys[2]
        == "build-dependencies"@);
}

/// The path of a dependency is found, white space around it left out, in a list
/// of dependencies wherever it stands: a value that names a path still names it
/// as an entry of a table or as an item of a list.
pub proof fn law_a_path_is_found_at_any_depth(
    text: Seq<char>,
    dependency: Seq<(Seq<char>, ManifestParts)>,
    d: int,
    list: Seq<(Seq<char>, ManifestParts)>,
    l: int,
    table: Seq<(Seq<char>, ManifestParts)>,
    t: int,
    items: Seq<ManifestParts>,
    inner: ManifestParts,
    path: Seq<char>,
)
    requires
        0 <= d < dependency.len(),
        0 <= l < list.len(),
        0 <= t < table.len(),
    ensures
        ({
            &&& dependency[d] == ("path"@, ManifestParts::Text(text))
            &&& trimmed(text).len() > 0
            &&& list[l].1 == ManifestParts::Table(dependency)
            &&& seq!["dependencies"@, "dev-dependencies"@, "build-dependencies"@].contains(
                table[t].0,
            )
            &&& table[t].1 == ManifestParts::Table(list)
        }) ==> names_path(ManifestParts::Table(table), trimmed(text)),
        names_path(inner, path) && table[t].1 == inner ==> names_path(
            ManifestParts::Table(table),
            path,
        ),
        names_path(inner, path) && items.contains(inner) ==> names_path(
            ManifestParts::Array(items),
            path,
        ),
{
    law_the_lists_of_dependencies(table[t].0);
    let whole = ManifestParts::Table(table);
    let entries = whole->Table_0;
    assert(entries == table);
    if dependency[d] == ("path"@, ManifestParts::Text(text)) && trimmed(text).len() > 0 {
        let one = ManifestParts::Table(dependency);
        let fields = one->Table_0;
        assert(fields == dependency);
        assert(is_path(fields[d], trimmed(text)));
        assert(gives_path(one, trimmed(text)));
        if list[l].1 == one {
            let many = ManifestParts::Table(list);
            let listed = many->Table_0;
            assert(listed == list);
            assert(gives_path(listed[l].1, trimmed(text)));
            assert(lists_path(many, trimmed(text)));
            if table[t].1 == many && lists_dependencies(table[t].0) {
                assert(lists_dependencies(entries[t].0));
                assert(lists_path(entries[t].1, trimmed(text)));
            }
        }
    }
    if names_path(inner, path) && table[t].1 == inner {
        assert(names_path(entries[t].1, path));
    }
    if names_path(inner, path) && items.contains(inner) {
        let array = ManifestParts::Array(items);
        let listed = array->Array_0;
        assert(listed == items);
        let i = items.index_of(inner);
        assert(names_path(listed[i], path));
    }
}

/// A manifest that is no table and no list names nothing, and every path that is
/// named has something in it.
pub proof fn law_named_paths_are_not_empty(value: ManifestParts, path: Seq<char>)
    requires
        names_path(value, path),
    ensures
        path.len() > 0,
        value is Table || value is Array,
    decreases value,
{
    match value {
        ManifestParts::Table(entries) => {
            if exists|i: int|
                0 <= i < entries.len() && lists_dependencies((#[trigger] entries[i]).0)
                    && lists_path(entries[i].1, path) {
            } else {
                let i = choose|i: int|
                    0 <= i < entries.len() && names_path((#[trigger] entries[i]).1, path);
                law_named_paths_are_not_empty(entries[i].1, path);
            }
        },
        ManifestParts::Array(items) => {
            let i = choose|i: int| 0 <= i < items.len() && names_path(#[trigger] items[i], path);
            law_named_paths_are_not_empty(items[i], path);
        },
        _ => {},
    }
}

} // verus!
