//! Taking unused dependencies out of a manifest.
//!
//! The manifest is a TOML document. `toml_edit` parses it, holds it and prints it;
//! which entries go, and when a request is refused, is decided here.

use std::str::FromStr;
use vstd::prelude::*;
use vstd::string::*;

use crate::text::{contains_char, contains_string, replace_char, replaced, strings};

verus! {

/// What an item of a TOML document holds. How it is written (comments, spaces, where a table
/// stands) is no part of it.
pub enum Node {
    /// A key that was looked up for writing and has no value yet.
    Nothing,
    /// A string.
    Text(Seq<char>),
    /// An array of values.
    Array(Seq<Node>),
    /// A table written in braces.
    Inline(Entries),
    /// A table written under a header or with dotted keys.
    Table(Entries),
    /// Any other value, and an array of tables; the number stands for what it holds.
    Other(int),
}

/// What a table holds.
#[verifier::ext_equal]
pub struct Entries {
    /// What stands under each key.
    pub values: Map<Seq<char>, Node>,
    /// The keys, in their order.
    pub keys: Seq<Seq<char>>,
}

impl Entries {
    /// A table without entries.
    pub open spec fn empty() -> Entries {
        Entries { values: Map::empty(), keys: Seq::empty() }
    }

    /// Every key is listed, once, and nothing else is.
    pub open spec fn wf(self) -> bool {
        &&& self.keys.no_duplicates()
        &&& forall|key: Seq<char>| #[trigger]
            self.values.contains_key(key) <==> self.keys.contains(key)
    }

    /// Whether something stands under `key`.
    pub open spec fn contains_key(self, key: Seq<char>) -> bool {
        self.values.contains_key(key)
    }

    /// What stands under `key`.
    pub open spec fn spec_index(self, key: Seq<char>) -> Node {
        self.values[key]
    }

    /// The table with `value` under `key`; a new key comes last.
    pub open spec fn insert(self, key: Seq<char>, value: Node) -> Entries {
        Entries {
            values: self.values.insert(key, value),
            keys: if self.values.contains_key(key) {
                self.keys
            } else {
                self.keys.push(key)
            },
        }
    }

    /// The table without `key`; the other keys keep their order.
    pub open spec fn remove(self, key: Seq<char>) -> Entries {
        Entries {
            values: self.values.remove(key),
            keys: keys_without(self.keys, key),
        }
    }
}

/// Which keys are others than `key`.
pub open spec fn other_than(key: Seq<char>) -> spec_fn(Seq<char>) -> bool {
    |other: Seq<char>| other != key
}

/// Under which keys something stands in a table.
pub open spec fn keys_in(entries: Entries) -> spec_fn(Seq<char>) -> bool {
    |key: Seq<char>| entries.contains_key(key)
}

/// The keys of a list but for `key`.
pub open spec fn keys_without(keys: Seq<Seq<char>>, key: Seq<char>) -> Seq<Seq<char>> {
    keys.filter(other_than(key))
}

/// The keys of a list under which something stands in a table.
pub open spec fn keys_within(keys: Seq<Seq<char>>, entries: Entries) -> Seq<Seq<char>> {
    keys.filter(keys_in(entries))
}

/// Whether `key` has a value in a table.
pub open spec fn present(entries: Entries, key: Seq<char>) -> bool {
    entries.contains_key(key) && !(entries[key] is Nothing)
}

/// Whether an item can be looked up by key for writing: tables can, and what has no value
/// yet becomes one.
pub open spec fn can_index(node: Node) -> bool {
    node is Nothing || node is Inline || node is Table
}

/// The entries of a table, of either kind.
pub open spec fn entries_of(node: Node) -> Entries {
    match node {
        Node::Inline(entries) => entries,
        Node::Table(entries) => entries,
        _ => Entries::empty(),
    }
}

/// The item under `key`.
pub open spec fn child(node: Node, key: Seq<char>) -> Node {
    if entries_of(node).contains_key(key) {
        entries_of(node)[key]
    } else {
        Node::Nothing
    }
}

/// The table with `value` under `key`; what had no value becomes a table in braces.
pub open spec fn with_child(node: Node, key: Seq<char>, value: Node) -> Node {
    match node {
        Node::Table(entries) => Node::Table(entries.insert(key, value)),
        _ => Node::Inline(entries_of(node).insert(key, value)),
    }
}

/// `toml_edit::Document`, a parsed document.
#[verifier::external_type_specification]
#[verifier::external_body]
pub struct ExDocument(toml_edit::Document);

/// `toml_edit::Item`, anything that stands under a key.
#[verifier::external_type_specification]
#[verifier::external_body]
pub struct ExItem(toml_edit::Item);

/// `toml_edit::Table`, a table under a header or with dotted keys.
#[verifier::external_type_specification]
#[verifier::external_body]
pub struct ExTable(toml_edit::Table);

/// `toml_edit::Array`, an array of values.
#[verifier::external_type_specification]
#[verifier::external_body]
pub struct ExArray(toml_edit::Array);

/// What the root item of a document holds.
pub uninterp spec fn document_node(document: toml_edit::Document) -> Node;

/// The text that a document prints as.
pub uninterp spec fn document_text(document: toml_edit::Document) -> Seq<char>;

/// What an item holds.
pub uninterp spec fn item_node(item: toml_edit::Item) -> Node;

/// What a table holds: all keys that it stores, in order, those without a value among them.
pub uninterp spec fn table_entries(table: toml_edit::Table) -> Entries;

/// The values of an array.
pub uninterp spec fn array_nodes(array: toml_edit::Array) -> Seq<Node>;

/// What `Document::from_str` makes of a text: the entries of the root table, or the text of
/// the error.
pub uninterp spec fn parsed_manifest(text: Seq<char>) -> Result<Entries, Seq<char>>;

/// `Document::from_str`: parses a document, whose root is always a table, and in which every
/// key has a value.
#[verifier::external_body]
fn parse_document(text: &str) -> (r: Result<toml_edit::Document, String>)
    ensures
        match r {
            Ok(document) => {
                &&& parsed_manifest(text@) is Ok
                &&& document_node(document) == Node::Table(parsed_manifest(text@)->Ok_0)
                &&& all_valued(document_node(document))
            },
            Err(message) => parsed_manifest(text@) == Err::<Entries, Seq<char>>(
                message@,
            ),
        },
{
    toml_edit::Document::from_str(text).map_err(|e| e.to_string())
}

/// `Display` for `Document`: prints the document. Of the text, so of order, comments and
/// spaces, nothing more is said; nor is it said that the text parses back to what the document
/// holds: it is made of pieces of text that a document may hold for its layout, keys without a
/// value are not printed, and neither is a table without a header of its own once it is empty.
/// The root has to be a table, or printing panics.
#[verifier::external_body]
fn print_document(document: &toml_edit::Document) -> (r: String)
    requires
        document_node(*document) is Table,
    ensures
        r@ == document_text(*document),
{
    document.to_string()
}

/// `Document::as_item_mut`: the root item.
#[verifier::external_body]
fn root_item(document: &mut toml_edit::Document) -> (r: &mut toml_edit::Item)
    ensures
        item_node(*r) == document_node(*old(document)),
        document_node(*final(document)) == item_node(*final(r)),
{
    document.as_item_mut()
}

/// `Item::get_mut` with a string: looks `key` up for writing. A table gets an entry without
/// a value if it has none under `key`, an item without a value becomes a table in braces, and
/// any other item is left alone.
#[verifier::external_body]
fn item_get_mut<'a>(item: &'a mut toml_edit::Item, key: &str) -> (r: Option<
    &'a mut toml_edit::Item,
>)
    ensures
        match r {
            Some(inner) => {
                &&& can_index(item_node(*old(item)))
                &&& item_node(*inner) == child(item_node(*old(item)), key@)
                &&& item_node(*final(item)) == with_child(
                    item_node(*old(item)),
                    key@,
                    item_node(*final(inner)),
                )
            },
            None => !can_index(item_node(*old(item))) && *final(item) == *old(item),
        },
{
    item.get_mut(key)
}

/// `Item::is_table_like`: whether the item is a table of either kind.
#[verifier::external_body]
fn is_table_like(item: &toml_edit::Item) -> (r: bool)
    ensures
        r == (item_node(*item) is Inline || item_node(*item) is Table),
{
    item.is_table_like()
}

/// `Item::as_table_mut`: the table that the item is, unless it is written in braces. A table
/// stores each key once.
#[verifier::external_body]
fn as_table_mut(item: &mut toml_edit::Item) -> (r: Option<&mut toml_edit::Table>)
    ensures
        match r {
            Some(table) => {
                &&& item_node(*old(item)) == Node::Table(table_entries(*table))
                &&& table_entries(*table).wf()
                &&& item_node(*final(item)) == Node::Table(table_entries(*final(table)))
            },
            None => !(item_node(*old(item)) is Table) && *final(item) == *old(item),
        },
{
    item.as_table_mut()
}

/// `Item::as_array_mut`: the array that the item is.
#[verifier::external_body]
fn as_array_mut(item: &mut toml_edit::Item) -> (r: Option<&mut toml_edit::Array>)
    ensures
        match r {
            Some(array) => {
                &&& item_node(*old(item)) == Node::Array(array_nodes(*array))
                &&& item_node(*final(item)) == Node::Array(array_nodes(*final(array)))
            },
            None => !(item_node(*old(item)) is Array) && *final(item) == *old(item),
        },
{
    item.as_array_mut()
}

/// `Table::get_mut`: the item under `key`, if it has a value.
#[verifier::external_body]
fn table_get_mut<'a>(table: &'a mut toml_edit::Table, key: &str) -> (r: Option<
    &'a mut toml_edit::Item,
>)
    ensures
        match r {
            Some(item) => {
                &&& present(table_entries(*old(table)), key@)
                &&& item_node(*item) == table_entries(*old(table))[key@]
                &&& table_entries(*final(table)) == table_entries(*old(table)).insert(
                    key@,
                    item_node(*final(item)),
                )
            },
            None => !present(table_entries(*old(table)), key@) && *final(table) == *old(table),
        },
{
    table.get_mut(key)
}

/// `Table::remove`: takes the entry under `key` out, and says whether there was one. The other
/// entries keep their order.
#[verifier::external_body]
fn table_remove(table: &mut toml_edit::Table, key: &str) -> (r: bool)
    ensures
        r == table_entries(*old(table)).contains_key(key@),
        table_entries(*final(table)) == table_entries(*old(table)).remove(key@),
{
    table.remove(key).is_some()
}

/// `Array::iter`: the values in order, the strings among them by what they hold.
#[verifier::external_body]
fn array_values(array: &toml_edit::Array) -> (r: Vec<Option<String>>)
    ensures
        r@.len() == array_nodes(*array).len(),
        forall|i: int|
            0 <= i < r@.len() ==> match #[trigger] r@[i] {
                Some(s) => array_nodes(*array)[i] == Node::Text(s@),
                None => !(array_nodes(*array)[i] is Text),
            },
{
    array.iter().map(|value| value.as_str().map(String::from)).collect()
}

/// `Array::retain` with `stays_ignored`: the values that are kept stay in order.
#[verifier::external_body]
fn array_retain(array: &mut toml_edit::Array, ignored_used: &[String])
    ensures
        array_nodes(*final(array)) == still_ignored(
            array_nodes(*old(array)),
            strings(ignored_used@),
        ),
{
    array.retain(|value| stays_ignored(value.as_str(), ignored_used));
}

/// The other way to write the name of a dependency: with `-` for `_`, or, in a name
/// without `_`, with `_` for `-`.
pub open spec fn alias(name: Seq<char>) -> Option<Seq<char>> {
    if name.contains('_') {
        Some(replaced(name, '_', '-'))
    } else if name.contains('-') {
        Some(replaced(name, '-', '_'))
    } else {
        None
    }
}

/// The key by which a dependency stands in a table: its name, or else its other name.
pub open spec fn key_of(entries: Entries, name: Seq<char>) -> Option<Seq<char>> {
    if entries.contains_key(name) {
        Some(name)
    } else if alias(name) is Some && entries.contains_key(alias(name)->Some_0) {
        alias(name)
    } else {
        None
    }
}

/// A table without the dependencies of `list`, taken out one after the other, or the first
/// of them that is not there.
pub open spec fn without(entries: Entries, list: Seq<Seq<char>>) -> Result<
    Entries,
    Seq<char>,
>
    decreases list.len(),
{
    if list.len() == 0 {
        Ok(entries)
    } else {
        match key_of(entries, list[0]) {
            Some(key) => without(entries.remove(key), list.skip(1)),
            None => Err(list[0]),
        }
    }
}

/// Whether a value of the list of ignored dependencies names one of `ignored_used`.
pub open spec fn names_one(node: Node, ignored_used: Seq<Seq<char>>) -> bool {
    node is Text && ignored_used.contains(node->Text_0)
}

/// Which values of the list of ignored dependencies name none of `ignored_used`.
pub open spec fn names_none(ignored_used: Seq<Seq<char>>) -> spec_fn(Node) -> bool {
    |node: Node| !names_one(node, ignored_used)
}

/// The list of ignored dependencies without those of `ignored_used`.
pub open spec fn still_ignored(nodes: Seq<Node>, ignored_used: Seq<Seq<char>>) -> Seq<Node> {
    nodes.filter(names_none(ignored_used))
}

/// Whether every value of an array is a string.
pub open spec fn all_text(nodes: Seq<Node>) -> bool {
    forall|i: int| 0 <= i < nodes.len() ==> (#[trigger] nodes[i]) is Text
}

/// The settings of this tool in a manifest without the ignored dependencies of
/// `ignored_used`. `None` if they cannot be read: the list is not an array, or something is
/// to be taken out of an array that holds more than strings.
pub open spec fn unignored(settings: Node, ignored_used: Seq<Seq<char>>) -> Option<Node> {
    match settings {
        Node::Table(entries) => if !present(entries, "ignored"@) {
            Some(settings)
        } else {
            match entries["ignored"@] {
                Node::Array(nodes) => if ignored_used.len() == 0 || all_text(nodes) {
                    Some(
                        Node::Table(
                            entries.insert(
                                "ignored"@,
                                Node::Array(still_ignored(nodes, ignored_used)),
                            ),
                        ),
                    )
                } else {
                    None
                },
                _ => None,
            }
        },
        _ => Some(settings),
    }
}

/// The manifest without the ignored dependencies of `ignored_used`. The settings stand
/// under `package.metadata.cargo-machete`, and looking them up makes tables on the way where
/// there are none. `None` if they cannot be reached or read.
pub open spec fn with_settings_edited(root: Node, ignored_used: Seq<Seq<char>>) -> Option<Node> {
    let package = child(root, "package"@);
    let metadata = child(package, "metadata"@);
    if !can_index(root) || !can_index(package) || !can_index(metadata) {
        None
    } else {
        match unignored(child(metadata, "cargo-machete"@), ignored_used) {
            Some(settings) => Some(
                with_child(
                    root,
                    "package"@,
                    with_child(
                        package,
                        "metadata"@,
                        with_child(metadata, "cargo-machete"@, settings),
                    ),
                ),
            ),
            None => None,
        }
    }
}

/// Why dependencies could not be taken out of a manifest.
pub enum Refusal {
    /// The manifest is no TOML document.
    Unparsable(Seq<char>),
    /// The manifest has no table of dependencies.
    MissingTable,
    /// The table of dependencies is written in braces.
    InlineTable,
    /// A dependency is not in the table, by neither of its names.
    NotFound(Seq<char>),
}

/// What the table of dependencies of a manifest holds.
pub open spec fn dependencies_of(entries: Entries) -> Entries {
    entries["dependencies"@]->Table_0
}

/// A manifest, given by the entries of its root table, without the dependencies of `list`
/// and the ignored dependencies of `ignored_used`. `None` if the settings of this tool
/// cannot be reached or read.
pub open spec fn fixed_entries(
    entries: Entries,
    list: Seq<Seq<char>>,
    ignored_used: Seq<Seq<char>>,
) -> Option<Result<Node, Refusal>> {
    if !present(entries, "dependencies"@) {
        Some(Err(Refusal::MissingTable))
    } else {
        match entries["dependencies"@] {
            Node::Inline(_) => Some(Err(Refusal::InlineTable)),
            Node::Table(dependencies) => match without(dependencies, list) {
                Err(name) => Some(Err(Refusal::NotFound(name))),
                Ok(left) => match with_settings_edited(
                    Node::Table(entries.insert("dependencies"@, Node::Table(left))),
                    ignored_used,
                ) {
                    Some(root) => Some(Ok(root)),
                    None => None,
                },
            },
            _ => Some(Err(Refusal::MissingTable)),
        }
    }
}

/// The manifest that `text` writes, fixed.
pub open spec fn fixed_manifest(
    text: Seq<char>,
    list: Seq<Seq<char>>,
    ignored_used: Seq<Seq<char>>,
) -> Option<Result<Node, Refusal>> {
    match parsed_manifest(text) {
        Ok(entries) => fixed_entries(entries, list, ignored_used),
        Err(message) => Some(Err(Refusal::Unparsable(message))),
    }
}

/// Whether every key in an item, at any depth, has a value.
pub open spec fn all_valued(node: Node) -> bool
    decreases node,
{
    match node {
        Node::Array(nodes) => forall|i: int|
            0 <= i < nodes.len() ==> all_valued(#[trigger] nodes[i]),
        Node::Inline(entries) => forall|key: Seq<char>| #[trigger]
            entries.values.contains_key(key) ==> !(entries.values[key] is Nothing) && all_valued(
                entries.values[key],
            ),
        Node::Table(entries) => forall|key: Seq<char>| #[trigger]
            entries.values.contains_key(key) ==> !(entries.values[key] is Nothing) && all_valued(
                entries.values[key],
            ),
        _ => true,
    }
}

/// Whether two items hold the same value: the order of keys, and keys without a value, make
/// no difference.
pub open spec fn alike(a: Node, b: Node) -> bool
    decreases a,
{
    match a {
        Node::Array(nodes) => {
            &&& b is Array
            &&& nodes.len() == b->Array_0.len()
            &&& forall|i: int| 0 <= i < nodes.len() ==> alike(#[trigger] nodes[i], b->Array_0[i])
        },
        Node::Inline(entries) => {
            &&& b is Inline
            &&& forall|key: Seq<char>|
                present(entries, key) == #[trigger] present(b->Inline_0, key)
            &&& forall|key: Seq<char>| #[trigger]
                entries.values.contains_key(key) && !(entries.values[key] is Nothing) ==> alike(
                    entries.values[key],
                    b->Inline_0.values[key],
                )
        },
        Node::Table(entries) => {
            &&& b is Table
            &&& forall|key: Seq<char>| present(entries, key) == #[trigger] present(b->Table_0, key)
            &&& forall|key: Seq<char>| #[trigger]
                entries.values.contains_key(key) && !(entries.values[key] is Nothing) ==> alike(
                    entries.values[key],
                    b->Table_0.values[key],
                )
        },
        _ => a == b,
    }
}

/// Whether `text` is what a document that holds `root` prints as.
pub open spec fn prints(text: Seq<char>, root: Node) -> bool {
    exists|document: toml_edit::Document|
        #![trigger document_text(document)]
        document_text(document) == text && document_node(document) == root
}

/// Why dependencies could not be taken out of a manifest.
#[derive(Debug)]
pub enum FixError {
    /// The manifest is no TOML document.
    Unparsable(String),
    /// The manifest has no table of dependencies.
    MissingTable,
    /// The table of dependencies is written in braces.
    InlineTable,
    /// A dependency is not in the table, by neither of its names.
    NotFound(String),
}

impl View for FixError {
    type V = Refusal;

    open spec fn view(&self) -> Refusal {
        match self {
            FixError::Unparsable(message) => Refusal::Unparsable(message@),
            FixError::MissingTable => Refusal::MissingTable,
            FixError::InlineTable => Refusal::InlineTable,
            FixError::NotFound(name) => Refusal::NotFound(name@),
        }
    }
}

/// What a user is told about a refusal.
pub open spec fn refusal_text(refusal: Refusal) -> Seq<char> {
    match refusal {
        Refusal::Unparsable(message) => message,
        Refusal::MissingTable => "dependencies table is missing or empty"@,
        Refusal::InlineTable =>
            "unexpected missing table, please report with a test case on https://github.com/arsenron/cargo-machete-nk"@,
        Refusal::NotFound(name) => "Dependency "@ + name + " not found"@,
    }
}

impl FixError {
    /// What a user is told about the error.
    pub fn message(&self) -> (r: String)
        ensures
            r@ == refusal_text(self@),
    {
        match self {
            FixError::Unparsable(message) => message.clone(),
            FixError::MissingTable => "dependencies table is missing or empty".to_owned(),
            FixError::InlineTable =>
                "unexpected missing table, please report with a test case on https://github.com/arsenron/cargo-machete-nk".to_owned(),
            FixError::NotFound(name) => {
                let mut r: String = "Dependency ".to_owned();
                r.append(name.as_str());
                r.append(" not found");
                r
            },
        }
    }
}

/// Whether a value stays in the list of ignored dependencies; only strings leave it.
fn stays_ignored(value: Option<&str>, ignored_used: &[String]) -> (r: bool)
    ensures
        r == match value {
            Some(name) => !strings(ignored_used@).contains(name@),
            None => true,
        },
{
    match value {
        Some(name) => !contains_string(ignored_used, &name.to_owned()),
        None => true,
    }
}

/// The other way to write the name of a dependency.
fn other_name(name: &String) -> (r: Option<String>)
    ensures
        match r {
            Some(other) => alias(name@) == Some(other@),
            None => alias(name@) is None,
        },
{
    proof {
        reveal_strlit("-");
        reveal_strlit("_");
    }
    if contains_char(name.as_str(), '_') {
        Some(replace_char(name.as_str(), '_', "-"))
    } else if contains_char(name.as_str(), '-') {
        Some(replace_char(name.as_str(), '-', "_"))
    } else {
        None
    }
}

/// Takes the dependencies of `list` out of a table, one after the other.
fn remove_listed(table: &mut toml_edit::Table, list: &[String]) -> (r: Result<(), String>)
    requires
        table_entries(*old(table)).wf(),
    ensures
        match r {
            Ok(_) => without(table_entries(*old(table)), strings(list@)) == Ok::<
                Entries,
                Seq<char>,
            >(table_entries(*final(table))),
            Err(name) => without(table_entries(*old(table)), strings(list@)) == Err::<
                Entries,
                Seq<char>,
            >(name@),
        },
{
    let ghost all = strings(list@);
    let ghost before = table_entries(*table);
    let mut i: usize = 0;
    assert(all.skip(0) =~= all);
    while i < list.len()
        invariant
            i <= list@.len(),
            all == strings(list@),
            before == table_entries(*old(table)),
            table_entries(*table).wf(),
            without(before, all) == without(table_entries(*table), all.skip(i as int)),
        decreases list@.len() - i,
    {
        let ghost left = table_entries(*table);
        let name: &String = &list[i];
        assert(all.skip(i as int)[0] == name@);
        assert(all.skip(i as int).skip(1) =~= all.skip(i + 1));
        proof {
            lemma_remove(left, name@);
        }
        if !table_remove(table, name.as_str()) {
            match other_name(name) {
                Some(other) => {
                    proof {
                        lemma_remove(left, other@);
                    }
                    if !table_remove(table, other.as_str()) {
                        return Err(name.clone());
                    }
                },
                None => {
                    return Err(name.clone());
                },
            }
        }
        i += 1;
    }
    Ok(())
}

/// Whether every value that an array handed out is a string.
fn all_strings(values: &Vec<Option<String>>) -> (r: bool)
    ensures
        r == forall|i: int| 0 <= i < values@.len() ==> (#[trigger] values@[i]) is Some,
{
    let mut i: usize = 0;
    while i < values.len()
        invariant
            i <= values@.len(),
            forall|j: int| 0 <= j < i ==> (#[trigger] values@[j]) is Some,
        decreases values@.len() - i,
    {
        if values[i].is_none() {
            return false;
        }
        i += 1;
    }
    true
}

/// Takes the ignored dependencies of `ignored_used` out of the settings of this tool.
fn edit_settings(settings: &mut toml_edit::Item, ignored_used: &[String]) -> (r: bool)
    ensures
        match unignored(item_node(*old(settings)), strings(ignored_used@)) {
            Some(node) => r && item_node(*final(settings)) == node,
            None => !r,
        },
{
    match as_table_mut(settings) {
        Some(table) => match table_get_mut(table, "ignored") {
            Some(ignored) => match as_array_mut(ignored) {
                Some(array) => {
                    let values: Vec<Option<String>> = array_values(array);
                    let readable: bool = all_strings(&values);
                    assert(readable == all_text(array_nodes(*array))) by {
                        let nodes = array_nodes(*array);
                        if readable {
                            assert forall|i: int| 0 <= i < nodes.len() implies (
                            #[trigger] nodes[i]) is Text by {
                                assert(values@[i] is Some);
                            }
                        } else {
                            let i = choose|i: int|
                                0 <= i < values@.len() && !((#[trigger] values@[i]) is Some);
                            assert(!(nodes[i] is Text));
                        }
                    }
                    if ignored_used.len() > 0 && !readable {
                        return false;
                    }
                    array_retain(array, ignored_used);
                    true
                },
                None => false,
            },
            None => true,
        },
        None => true,
    }
}

/// Takes the ignored dependencies of `ignored_used` out of a manifest.
fn edit_manifest_settings(root: &mut toml_edit::Item, ignored_used: &[String]) -> (r: bool)
    ensures
        match with_settings_edited(item_node(*old(root)), strings(ignored_used@)) {
            Some(node) => r && item_node(*final(root)) == node,
            None => !r,
        },
{
    match item_get_mut(root, "package") {
        Some(package) => match item_get_mut(package, "metadata") {
            Some(metadata) => match item_get_mut(metadata, "cargo-machete") {
                Some(settings) => edit_settings(settings, ignored_used),
                None => false,
            },
            None => false,
        },
        None => false,
    }
}

/// Takes the dependencies of `list` out of the table of dependencies of a manifest.
fn edit_manifest_dependencies(root: &mut toml_edit::Item, list: &[String]) -> (r: Result<
    (),
    FixError,
>)
    requires
        item_node(*old(root)) is Table,
    ensures
        ({
            let entries = item_node(*old(root))->Table_0;
            let dependencies = entries["dependencies"@];
            match r {
                Ok(_) => {
                    &&& present(entries, "dependencies"@)
                    &&& dependencies is Table
                    &&& dependencies->Table_0.wf()
                    &&& without(dependencies->Table_0, strings(list@)) is Ok
                    &&& item_node(*final(root)) == Node::Table(
                        entries.insert(
                            "dependencies"@,
                            Node::Table(without(dependencies->Table_0, strings(list@))->Ok_0),
                        ),
                    )
                },
                Err(FixError::MissingTable) => !present(entries, "dependencies"@) || !(
                dependencies is Table || dependencies is Inline),
                Err(FixError::InlineTable) => present(entries, "dependencies"@)
                    && dependencies is Inline,
                Err(FixError::NotFound(name)) => {
                    &&& present(entries, "dependencies"@)
                    &&& dependencies is Table
                    &&& without(dependencies->Table_0, strings(list@)) == Err::<
                        Entries,
                        Seq<char>,
                    >(name@)
                },
                Err(FixError::Unparsable(_)) => false,
            }
        }),
{
    match as_table_mut(root) {
        Some(table) => match table_get_mut(table, "dependencies") {
            Some(item) => {
                if !is_table_like(item) {
                    return Err(FixError::MissingTable);
                }
                match as_table_mut(item) {
                    Some(dependencies) => match remove_listed(dependencies, list) {
                        Ok(_) => Ok(()),
                        Err(name) => Err(FixError::NotFound(name)),
                    },
                    None => Err(FixError::InlineTable),
                }
            },
            None => Err(FixError::MissingTable),
        },
        None => Err(FixError::MissingTable),
    }
}

/// Takes the dependencies of `dependencies_list` and the ignored dependencies of
/// `ignored_used` out of a parsed manifest. `None` if the settings of this tool cannot be
/// reached or read.
pub fn fix_document(
    document: &mut toml_edit::Document,
    dependencies_list: &[String],
    ignored_used: &[String],
) -> (r: Option<Result<(), FixError>>)
    requires
        document_node(*old(document)) is Table,
    ensures
        match fixed_entries(
            document_node(*old(document))->Table_0,
            strings(dependencies_list@),
            strings(ignored_used@),
        ) {
            Some(Ok(root)) => {
                &&& r == Some(Ok::<(), FixError>(()))
                &&& document_node(*final(document)) == root
                &&& dependencies_of(document_node(*old(document))->Table_0).wf()
            },
            Some(Err(refusal)) => r matches Some(Err(e)) && e@ == refusal,
            None => r is None,
        },
{
    let root = root_item(document);
    match edit_manifest_dependencies(root, dependencies_list) {
        Ok(_) => {
            if edit_manifest_settings(root, ignored_used) {
                Some(Ok(()))
            } else {
                None
            }
        },
        Err(e) => Some(Err(e)),
    }
}

/// The text of a manifest without the dependencies of `dependencies_list` and the ignored
/// dependencies of `ignored_used`. `None` if the settings of this tool cannot be reached or
/// read.
pub fn try_remove_dependencies(
    manifest: &str,
    dependencies_list: &[String],
    ignored_used: &[String],
) -> (r: Option<Result<String, FixError>>)
    ensures
        match fixed_manifest(manifest@, strings(dependencies_list@), strings(ignored_used@)) {
            Some(Ok(root)) => {
                &&& r matches Some(Ok(text)) && prints(text@, root)
                &&& dependencies_of(parsed_manifest(manifest@)->Ok_0).wf()
                &&& all_valued(Node::Table(parsed_manifest(manifest@)->Ok_0))
            },
            Some(Err(refusal)) => r matches Some(Err(e)) && e@ == refusal,
            None => r is None,
        },
{
    match parse_document(manifest) {
        Ok(mut document) => match fix_document(&mut document, dependencies_list, ignored_used) {
            Some(Ok(_)) => {
                let text: String = print_document(&document);
                Some(Ok(text))
            },
            Some(Err(e)) => Some(Err(e)),
            None => None,
        },
        Err(message) => Some(Err(FixError::Unparsable(message))),
    }
}

/// The text of a manifest without the dependencies of `dependencies_list` and the ignored
/// dependencies of `ignored_used`.
pub fn remove_dependencies(
    manifest: &str,
    dependencies_list: &[String],
    ignored_used: &[String],
) -> (r: Result<String, FixError>)
    requires
        fixed_manifest(manifest@, strings(dependencies_list@), strings(ignored_used@)) is Some,
    ensures
        match fixed_manifest(
            manifest@,
            strings(dependencies_list@),
            strings(ignored_used@),
        )->Some_0 {
            Ok(root) => {
                &&& r matches Ok(text) && prints(text@, root)
                &&& dependencies_of(parsed_manifest(manifest@)->Ok_0).wf()
                &&& all_valued(Node::Table(parsed_manifest(manifest@)->Ok_0))
            },
            Err(refusal) => r matches Err(e) && e@ == refusal,
        },
{
    try_remove_dependencies(manifest, dependencies_list, ignored_used).unwrap()
}

/// Two filters in a row are one.
proof fn lemma_filter_twice<A>(
    s: Seq<A>,
    p: spec_fn(A) -> bool,
    q: spec_fn(A) -> bool,
    both: spec_fn(A) -> bool,
)
    requires
        forall|a: A| #[trigger] both(a) <==> p(a) && q(a),
    ensures
        s.filter(p).filter(q) == s.filter(both),
    decreases s.len(),
{
    reveal(Seq::filter);
    if s.len() > 0 {
        let front = s.drop_last();
        lemma_filter_twice(front, p, q, both);
        assert(both(s.last()) <==> p(s.last()) && q(s.last()));
        if p(s.last()) {
            assert(s.filter(p) == front.filter(p).push(s.last()));
            assert(s.filter(p).drop_last() =~= front.filter(p));
        }
    }
}

/// A filter that everything passes changes nothing.
proof fn lemma_filter_all<A>(s: Seq<A>, p: spec_fn(A) -> bool)
    requires
        forall|i: int| 0 <= i < s.len() ==> p(#[trigger] s[i]),
    ensures
        s.filter(p) == s,
    decreases s.len(),
{
    reveal(Seq::filter);
    if s.len() > 0 {
        let front = s.drop_last();
        assert forall|i: int| 0 <= i < front.len() implies p(#[trigger] front[i]) by {
            assert(front[i] == s[i]);
        }
        lemma_filter_all(front, p);
        assert(p(s[s.len() - 1]));
        assert(front.push(s.last()) =~= s);
    } else {
        assert(s.filter(p) =~= s);
    }
}

/// A list of different keys without one of them.
proof fn lemma_keys_without(keys: Seq<Seq<char>>, key: Seq<char>)
    requires
        keys.no_duplicates(),
    ensures
        ({
            let left = keys_without(keys, key);
            &&& left.no_duplicates()
            &&& forall|k: Seq<char>| #[trigger]
                left.contains(k) <==> keys.contains(k) && k != key
            &&& left.len() == keys.len() - if keys.contains(key) {
                1int
            } else {
                0int
            }
        }),
    decreases keys.len(),
{
    reveal(Seq::filter);
    let keep = other_than(key);
    let left = keys_without(keys, key);
    if keys.len() > 0 {
        let front = keys.drop_last();
        let last = keys.last();
        let before = keys_without(front, key);
        assert(front.no_duplicates());
        lemma_keys_without(front, key);
        assert(keys =~= front.push(last));
        assert forall|k: Seq<char>| #[trigger]
            keys.contains(k) <==> front.contains(k) || k == last by {
            if front.contains(k) {
                let i = choose|i: int| 0 <= i < front.len() && front[i] == k;
                assert(keys[i] == k);
            }
            if k == last {
                assert(keys[keys.len() - 1] == k);
            }
            if keys.contains(k) && k != last {
                let i = choose|i: int| 0 <= i < keys.len() && keys[i] == k;
                assert(front[i] == k);
            }
        }
        assert(!front.contains(last)) by {
            if front.contains(last) {
                let i = choose|i: int| 0 <= i < front.len() && front[i] == last;
                assert(keys[i] == keys[keys.len() - 1]);
            }
        }
        if keep(last) {
            assert(left == before.push(last));
            assert forall|k: Seq<char>| #[trigger]
                left.contains(k) <==> before.contains(k) || k == last by {
                if before.contains(k) {
                    let i = choose|i: int| 0 <= i < before.len() && before[i] == k;
                    assert(left[i] == k);
                }
                if k == last {
                    assert(left[left.len() - 1] == k);
                }
                if left.contains(k) && k != last {
                    let i = choose|i: int| 0 <= i < left.len() && left[i] == k;
                    assert(before[i] == k);
                }
            }
            assert(!before.contains(last));
            assert(left.no_duplicates()) by {
                assert forall|i: int, j: int| 0 <= i < left.len() && 0 <= j < left.len() && i
                    != j implies left[i] != left[j] by {
                    if i < before.len() && j < before.len() {
                        assert(before[i] != before[j]);
                    } else if i < before.len() {
                        assert(before.contains(before[i]));
                    } else {
                        assert(before.contains(before[j]));
                    }
                }
            }
        } else {
            assert(left == before);
        }
    }
}

/// A table without a key has one entry less, if there was one, and else is as it was.
proof fn lemma_remove(entries: Entries, key: Seq<char>)
    requires
        entries.wf(),
    ensures
        entries.remove(key).wf(),
        entries.contains_key(key) ==> entries.remove(key).keys.len() == entries.keys.len() - 1,
        !entries.contains_key(key) ==> entries.remove(key) == entries,
{
    lemma_keys_without(entries.keys, key);
    let left = entries.remove(key);
    assert forall|k: Seq<char>| #[trigger]
        left.values.contains_key(k) <==> left.keys.contains(k) by {
        assert(left.keys.contains(k) <==> entries.keys.contains(k) && k != key);
        assert(entries.values.contains_key(k) <==> entries.keys.contains(k));
    }
    assert(entries.values.contains_key(key) <==> entries.keys.contains(key));
    if !entries.contains_key(key) {
        let keep = other_than(key);
        assert forall|i: int| 0 <= i < entries.keys.len() implies keep(
            #[trigger] entries.keys[i],
        ) by {
            assert(entries.keys.contains(entries.keys[i]));
        }
        lemma_filter_all(entries.keys, keep);
        assert(left.values =~= entries.values);
    }
}

/// What is left of a table once dependencies are taken out has that many entries fewer, and
/// these keep their order.
pub proof fn law_the_rest_keeps_its_order(entries: Entries, list: Seq<Seq<char>>)
    requires
        entries.wf(),
        without(entries, list) is Ok,
    ensures
        ({
            let left = without(entries, list)->Ok_0;
            &&& left.wf()
            &&& left.keys == keys_within(entries.keys, left)
            &&& left.keys.len() == entries.keys.len() - list.len()
        }),
    decreases list.len(),
{
    let left = without(entries, list)->Ok_0;
    let stays = keys_in(left);
    if list.len() == 0 {
        assert forall|i: int| 0 <= i < entries.keys.len() implies stays(
            #[trigger] entries.keys[i],
        ) by {
            assert(entries.keys.contains(entries.keys[i]));
        }
        lemma_filter_all(entries.keys, stays);
    } else {
        let key = key_of(entries, list[0])->Some_0;
        lemma_remove(entries, key);
        law_the_rest_keeps_its_order(entries.remove(key), list.skip(1));
        law_only_listed_leave(entries.remove(key), list.skip(1));
        let others = other_than(key);
        assert forall|k: Seq<char>| #[trigger] stays(k) <==> others(k) && stays(k) by {
            if stays(k) {
                assert(left.values.dom().contains(k));
                assert(entries.remove(key).values.dom().contains(k));
            }
        }
        lemma_filter_twice(entries.keys, others, stays, stays);
        assert(keys_within(entries.remove(key).keys, left) == keys_within(entries.keys, left));
    }
}

/// Taking dependencies out of a table adds and changes nothing, leaves none of them behind,
/// and keeps every dependency that goes by none of their names.
pub proof fn law_only_listed_leave(entries: Entries, list: Seq<Seq<char>>)
    requires
        without(entries, list) is Ok,
    ensures
        without(entries, list)->Ok_0.values.submap_of(entries.values),
        forall|i: int|
            0 <= i < list.len() ==> !without(entries, list)->Ok_0.contains_key(
                #[trigger] list[i],
            ),
        forall|key: Seq<char>| #[trigger]
            entries.contains_key(key) && (forall|i: int|
                0 <= i < list.len() ==> key != #[trigger] list[i] && alias(list[i]) != Some(key))
                ==> without(entries, list)->Ok_0.contains_key(key),
    decreases list.len(),
{
    if list.len() > 0 {
        let key = key_of(entries, list[0])->Some_0;
        let rest = list.skip(1);
        let left = without(entries, list)->Ok_0;
        law_only_listed_leave(entries.remove(key), rest);
        assert forall|k: Seq<char>| #[trigger]
            left.values.dom().contains(k) implies entries.values.dom().contains(k)
            && left.values[k] == entries.values[k] by {
            assert(entries.remove(key).values.dom().contains(k));
        }
        assert(!left.contains_key(list[0])) by {
            assert(left.values.submap_of(entries.remove(key).values));
            assert(!entries.remove(key).contains_key(list[0]));
        }
        assert forall|i: int| 0 <= i < list.len() implies !left.contains_key(
            #[trigger] list[i],
        ) by {
            if i > 0 {
                assert(rest[i - 1] == list[i]);
            }
        }
        assert forall|k: Seq<char>| #[trigger]
            entries.contains_key(k) && (forall|i: int|
                0 <= i < list.len() ==> k != #[trigger] list[i] && alias(list[i]) != Some(
                    k,
                )) implies left.contains_key(k) by {
            assert(list[0] != k && alias(list[0]) != Some(k));
            assert(entries.remove(key).contains_key(k));
            assert forall|i: int| 0 <= i < rest.len() implies k != #[trigger] rest[i] && alias(
                rest[i],
            ) != Some(k) by {
                assert(rest[i] == list[i + 1]);
            }
        }
    }
}

/// Different dependencies that are all in a table under their own names leave it, and
/// everything else stays.
pub proof fn law_present_dependencies_leave(entries: Entries, list: Seq<Seq<char>>)
    requires
        list.no_duplicates(),
        forall|i: int| 0 <= i < list.len() ==> entries.contains_key(#[trigger] list[i]),
    ensures
        without(entries, list) is Ok,
        without(entries, list)->Ok_0.values == entries.values.remove_keys(list.to_set()),
    decreases list.len(),
{
    if list.len() == 0 {
        assert(entries.values.remove_keys(list.to_set()) =~= entries.values);
    } else {
        let rest = list.skip(1);
        let left = entries.remove(list[0]);
        assert forall|i: int| 0 <= i < rest.len() implies left.contains_key(#[trigger] rest[i]) by {
            assert(rest[i] == list[i + 1]);
            assert(list[i + 1] != list[0]);
        }
        law_present_dependencies_leave(left, rest);
        assert(left.values.remove_keys(rest.to_set()) =~= entries.values.remove_keys(
            list.to_set(),
        )) by {
            assert forall|k: Seq<char>| list.contains(k) == (k == list[0] || rest.contains(k)) by {
                if rest.contains(k) {
                    let i = choose|i: int| 0 <= i < rest.len() && rest[i] == k;
                    assert(list[i + 1] == k);
                }
                if list.contains(k) && k != list[0] {
                    let i = choose|i: int| 0 <= i < list.len() && list[i] == k;
                    assert(rest[i - 1] == k);
                }
            }
        }
    }
}

/// A dependency that is in the table by neither of its names has the request refused, and
/// the name in a refusal is one that was asked for.
pub proof fn law_absent_dependency_is_refused(
    entries: Entries,
    list: Seq<Seq<char>>,
    name: Seq<char>,
)
    requires
        list.contains(name),
        key_of(entries, name) is None,
    ensures
        without(entries, list) is Err,
        list.contains(without(entries, list)->Err_0),
    decreases list.len(),
{
    match key_of(entries, list[0]) {
        Some(key) => {
            let rest = list.skip(1);
            let i = choose|i: int| 0 <= i < list.len() && list[i] == name;
            assert(rest[i - 1] == name);
            law_absent_dependency_is_refused(entries.remove(key), rest, name);
            let refused = without(entries, list)->Err_0;
            let j = choose|j: int| 0 <= j < rest.len() && rest[j] == refused;
            assert(list[j + 1] == refused);
        },
        None => {
            assert(list[0] == list[0]);
        },
    }
}

/// The list of ignored dependencies keeps, in order, exactly what is not named.
pub proof fn law_ignored_used_leave(nodes: Seq<Node>, ignored_used: Seq<Seq<char>>)
    ensures
        forall|i: int|
            0 <= i < still_ignored(nodes, ignored_used).len() ==> !names_one(
                #[trigger] still_ignored(nodes, ignored_used)[i],
                ignored_used,
            ),
        forall|node: Node|
            still_ignored(nodes, ignored_used).contains(node) <==> #[trigger] nodes.contains(node)
                && !names_one(node, ignored_used),
        ignored_used.len() == 0 ==> still_ignored(nodes, ignored_used) == nodes,
    decreases nodes.len(),
{
    let keep = names_none(ignored_used);
    let kept = still_ignored(nodes, ignored_used);
    reveal(Seq::filter);
    if nodes.len() > 0 {
        let front = nodes.drop_last();
        law_ignored_used_leave(front, ignored_used);
        let before = still_ignored(front, ignored_used);
        assert(kept == if keep(nodes.last()) {
            before.push(nodes.last())
        } else {
            before
        });
        assert forall|node: Node|
            kept.contains(node) <==> #[trigger] nodes.contains(node) && !names_one(
                node,
                ignored_used,
            ) by {
            if kept.contains(node) {
                let i = choose|i: int| 0 <= i < kept.len() && kept[i] == node;
                if i < before.len() {
                    assert(before[i] == node);
                    assert(before.contains(node));
                    assert(front.contains(node));
                    let j = choose|j: int| 0 <= j < front.len() && front[j] == node;
                    assert(nodes[j] == node);
                } else {
                    assert(nodes[nodes.len() - 1] == node);
                }
            }
            if nodes.contains(node) && !names_one(node, ignored_used) {
                let j = choose|j: int| 0 <= j < nodes.len() && nodes[j] == node;
                if j < front.len() {
                    assert(front[j] == node);
                    assert(front.contains(node));
                    assert(before.contains(node));
                    let i = choose|i: int| 0 <= i < before.len() && before[i] == node;
                    assert(kept[i] == node);
                } else {
                    assert(kept[kept.len() - 1] == node);
                }
            }
        }
        if ignored_used.len() == 0 {
            assert(keep(nodes.last()));
            assert(before.push(nodes.last()) =~= nodes);
        }
    } else {
        assert(kept =~= nodes);
    }
}

/// A fix changes nothing in a manifest but the table of dependencies, of which it leaves
/// what `without` says, and the settings of this tool in the metadata of the package, of which
/// it leaves what `unignored` says.
pub proof fn law_fix_keeps_the_rest(
    entries: Entries,
    list: Seq<Seq<char>>,
    ignored_used: Seq<Seq<char>>,
    key: Seq<char>,
)
    requires
        fixed_entries(entries, list, ignored_used) matches Some(Ok(_)),
    ensures
        ({
            let root = fixed_entries(entries, list, ignored_used)->Some_0->Ok_0;
            &&& entries["dependencies"@] is Table
            &&& child(root, "dependencies"@) == Node::Table(
                without(entries["dependencies"@]->Table_0, list)->Ok_0,
            )
            &&& key != "dependencies"@ && key != "package"@ ==> child(root, key) == child(
                Node::Table(entries),
                key,
            )
            &&& key != "metadata"@ ==> child(child(root, "package"@), key) == child(
                child(Node::Table(entries), "package"@),
                key,
            )
            &&& key != "cargo-machete"@ ==> child(
                child(child(root, "package"@), "metadata"@),
                key,
            ) == child(child(child(Node::Table(entries), "package"@), "metadata"@), key)
            &&& unignored(
                child(
                    child(child(Node::Table(entries), "package"@), "metadata"@),
                    "cargo-machete"@,
                ),
                ignored_used,
            ) == Some(
                child(child(child(root, "package"@), "metadata"@), "cargo-machete"@),
            )
        }),
{
    reveal_strlit("dependencies");
    reveal_strlit("package");
    assert("dependencies"@.len() != "package"@.len());
}

/// Taking ignored dependencies out of the settings of this tool one list after the other is
/// taking both out at once.
proof fn lemma_unignored_twice(settings: Node, i: Seq<Seq<char>>, j: Seq<Seq<char>>)
    requires
        unignored(settings, i) is Some,
        unignored(unignored(settings, i)->Some_0, j) is Some,
    ensures
        unignored(settings, i + j) == unignored(unignored(settings, i)->Some_0, j),
{
    if let Node::Table(entries) = settings {
        if present(entries, "ignored"@) {
            let nodes = entries["ignored"@]->Array_0;
            let once = still_ignored(nodes, i);
            assert forall|node: Node| #[trigger]
                names_none(i + j)(node) <==> names_none(i)(node) && names_none(j)(node) by {
                if node is Text {
                    let name = node->Text_0;
                    if i.contains(name) {
                        let k = choose|k: int| 0 <= k < i.len() && i[k] == name;
                        assert((i + j)[k] == name);
                    }
                    if j.contains(name) {
                        let k = choose|k: int| 0 <= k < j.len() && j[k] == name;
                        assert((i + j)[i.len() + k] == name);
                    }
                    if (i + j).contains(name) {
                        let k = choose|k: int| 0 <= k < (i + j).len() && (i + j)[k] == name;
                        if k < i.len() {
                            assert(i[k] == name);
                        } else {
                            assert(j[k - i.len()] == name);
                        }
                    }
                }
            }
            lemma_filter_twice(nodes, names_none(i), names_none(j), names_none(i + j));
            law_ignored_used_leave(nodes, i);
            lemma_insert_twice(
                entries,
                "ignored"@,
                Node::Array(once),
                Node::Array(still_ignored(once, j)),
            );
        }
    }
}

/// Of two values put under one key the later one stays.
proof fn lemma_insert_twice(entries: Entries, key: Seq<char>, first: Node, second: Node)
    ensures
        entries.insert(key, first).insert(key, second) == entries.insert(key, second),
{
    assert(entries.values.insert(key, first).insert(key, second) =~= entries.values.insert(
        key,
        second,
    ));
}

proof fn lemma_with_child_twice(node: Node, key: Seq<char>, first: Node, second: Node)
    ensures
        with_child(with_child(node, key, first), key, second) == with_child(node, key, second),
        child(with_child(node, key, first), key) == first,
{
    lemma_insert_twice(entries_of(node), key, first, second);
}

/// Two fixes in a row are one fix with both lists of dependencies and both lists of ignored
/// dependencies.
pub proof fn law_two_fixes_are_one(
    entries: Entries,
    a: Seq<Seq<char>>,
    i: Seq<Seq<char>>,
    b: Seq<Seq<char>>,
    j: Seq<Seq<char>>,
)
    requires
        fixed_entries(entries, a, i) matches Some(Ok(_)),
        fixed_entries(entries_of(fixed_entries(entries, a, i)->Some_0->Ok_0), b, j) matches Some(
            Ok(_),
        ),
    ensures
        fixed_entries(entries, a + b, i + j) == fixed_entries(
            entries_of(fixed_entries(entries, a, i)->Some_0->Ok_0),
            b,
            j,
        ),
{
    reveal_strlit("dependencies");
    reveal_strlit("package");
    assert("dependencies"@.len() != "package"@.len());
    let once = entries_of(fixed_entries(entries, a, i)->Some_0->Ok_0);
    let left_a = without(dependencies_of(entries), a)->Ok_0;
    law_lists_leave_in_turn(dependencies_of(entries), a, b);
    assert(dependencies_of(once) == left_a);
    let left = without(left_a, b)->Ok_0;
    let root = Node::Table(entries);
    let package = child(root, "package"@);
    let metadata = child(package, "metadata"@);
    let settings = child(metadata, "cargo-machete"@);
    let settings_i = unignored(settings, i)->Some_0;
    let metadata_i = with_child(metadata, "cargo-machete"@, settings_i);
    let package_i = with_child(package, "metadata"@, metadata_i);
    let before = Node::Table(entries.insert("dependencies"@, Node::Table(left_a)));
    assert(child(before, "package"@) == package);
    assert(once == entries.insert("dependencies"@, Node::Table(left_a)).insert(
        "package"@,
        package_i,
    ));
    let again = Node::Table(once.insert("dependencies"@, Node::Table(left)));
    assert(child(again, "package"@) == package_i);
    assert(child(package_i, "metadata"@) == metadata_i);
    assert(child(metadata_i, "cargo-machete"@) == settings_i);
    lemma_unignored_twice(settings, i, j);
    let settings_j = unignored(settings_i, j)->Some_0;
    lemma_with_child_twice(metadata, "cargo-machete"@, settings_i, settings_j);
    let metadata_j = with_child(metadata, "cargo-machete"@, settings_j);
    lemma_with_child_twice(package, "metadata"@, metadata_i, metadata_j);
    let package_j = with_child(package, "metadata"@, metadata_j);
    let both = Node::Table(entries.insert("dependencies"@, Node::Table(left)));
    assert(child(both, "package"@) == package);
    let twice = once.insert("dependencies"@, Node::Table(left)).insert("package"@, package_j);
    let at_once = entries.insert("dependencies"@, Node::Table(left)).insert(
        "package"@,
        package_j,
    );
    assert(twice.values =~= at_once.values);
    assert(twice.keys =~= at_once.keys);
}

/// Whether two tables hold the same values.
pub open spec fn entries_alike(x: Entries, y: Entries) -> bool {
    &&& forall|key: Seq<char>| present(x, key) == #[trigger] present(y, key)
    &&& forall|key: Seq<char>| #[trigger]
        x.values.contains_key(key) && !(x.values[key] is Nothing) ==> alike(
            x.values[key],
            y.values[key],
        )
}

/// Every item holds the same value as itself.
pub proof fn law_alike_reflexive(a: Node)
    ensures
        alike(a, a),
    decreases a,
{
    match a {
        Node::Array(nodes) => {
            assert forall|i: int| 0 <= i < nodes.len() implies alike(
                #[trigger] nodes[i],
                a->Array_0[i],
            ) by {
                law_alike_reflexive(nodes[i]);
            }
        },
        Node::Inline(entries) => {
            assert forall|key: Seq<char>| #[trigger]
                entries.values.contains_key(key) && !(entries.values[key] is Nothing) implies alike(
                entries.values[key],
                a->Inline_0.values[key],
            ) by {
                law_alike_reflexive(entries.values[key]);
            }
        },
        Node::Table(entries) => {
            assert forall|key: Seq<char>| #[trigger]
                entries.values.contains_key(key) && !(entries.values[key] is Nothing) implies alike(
                entries.values[key],
                a->Table_0.values[key],
            ) by {
                law_alike_reflexive(entries.values[key]);
            }
        },
        _ => {},
    }
}

/// Holding the same value goes both ways.
pub proof fn law_alike_symmetric(a: Node, b: Node)
    requires
        alike(a, b),
    ensures
        alike(b, a),
    decreases a,
{
    match a {
        Node::Array(nodes) => {
            let others = b->Array_0;
            assert forall|i: int| 0 <= i < others.len() implies alike(
                #[trigger] others[i],
                a->Array_0[i],
            ) by {
                assert(alike(nodes[i], others[i]));
                law_alike_symmetric(nodes[i], others[i]);
            }
        },
        Node::Inline(entries) => {
            let others = b->Inline_0;
            assert forall|key: Seq<char>| #[trigger] present(entries, key) == present(
                others,
                key,
            ) by {}
            assert forall|key: Seq<char>| #[trigger]
                others.values.contains_key(key) && !(others.values[key] is Nothing) implies alike(
                others.values[key],
                a->Inline_0.values[key],
            ) by {
                assert(present(others, key));
                assert(entries.values.contains_key(key));
                law_alike_symmetric(entries.values[key], others.values[key]);
            }
        },
        Node::Table(entries) => {
            let others = b->Table_0;
            assert forall|key: Seq<char>| #[trigger] present(entries, key) == present(
                others,
                key,
            ) by {}
            assert forall|key: Seq<char>| #[trigger]
                others.values.contains_key(key) && !(others.values[key] is Nothing) implies alike(
                others.values[key],
                a->Table_0.values[key],
            ) by {
                assert(present(others, key));
                assert(entries.values.contains_key(key));
                law_alike_symmetric(entries.values[key], others.values[key]);
            }
        },
        _ => {},
    }
}

/// Items that hold the same value as a third hold the same value.
pub proof fn law_alike_transitive(a: Node, b: Node, c: Node)
    requires
        alike(a, b),
        alike(b, c),
    ensures
        alike(a, c),
    decreases a,
{
    match a {
        Node::Array(nodes) => {
            assert forall|i: int| 0 <= i < nodes.len() implies alike(
                #[trigger] nodes[i],
                c->Array_0[i],
            ) by {
                assert(alike(nodes[i], b->Array_0[i]));
                assert(alike(b->Array_0[i], c->Array_0[i]));
                law_alike_transitive(nodes[i], b->Array_0[i], c->Array_0[i]);
            }
        },
        Node::Inline(entries) => {
            assert forall|key: Seq<char>|
                present(entries, key) == #[trigger] present(c->Inline_0, key) by {
                assert(present(entries, key) == present(b->Inline_0, key));
            }
            assert forall|key: Seq<char>| #[trigger]
                entries.values.contains_key(key) && !(entries.values[key] is Nothing) implies alike(
                entries.values[key],
                c->Inline_0.values[key],
            ) by {
                assert(present(b->Inline_0, key));
                assert(b->Inline_0.values.contains_key(key));
                law_alike_transitive(
                    entries.values[key],
                    b->Inline_0.values[key],
                    c->Inline_0.values[key],
                );
            }
        },
        Node::Table(entries) => {
            assert forall|key: Seq<char>|
                present(entries, key) == #[trigger] present(c->Table_0, key) by {
                assert(present(entries, key) == present(b->Table_0, key));
            }
            assert forall|key: Seq<char>| #[trigger]
                entries.values.contains_key(key) && !(entries.values[key] is Nothing) implies alike(
                entries.values[key],
                c->Table_0.values[key],
            ) by {
                assert(present(b->Table_0, key));
                assert(b->Table_0.values.contains_key(key));
                law_alike_transitive(
                    entries.values[key],
                    b->Table_0.values[key],
                    c->Table_0.values[key],
                );
            }
        },
        _ => {},
    }
}

/// Tables that hold the same values still do with the same value under one key.
proof fn lemma_insert_alike(x: Entries, y: Entries, key: Seq<char>, a: Node, b: Node)
    requires
        entries_alike(x, y),
        alike(a, b),
    ensures
        entries_alike(x.insert(key, a), y.insert(key, b)),
{
    let p = x.insert(key, a);
    let q = y.insert(key, b);
    assert forall|k: Seq<char>| present(p, k) == #[trigger] present(q, k) by {
        assert(present(x, k) == present(y, k));
    }
    assert forall|k: Seq<char>| #[trigger]
        p.values.contains_key(k) && !(p.values[k] is Nothing) implies alike(
        p.values[k],
        q.values[k],
    ) by {
        if k != key {
            assert(x.values.contains_key(k));
        }
    }
}

/// Items that hold the same value hold the same under each key.
proof fn lemma_child_alike(a: Node, b: Node, key: Seq<char>)
    requires
        alike(a, b),
    ensures
        can_index(a) == can_index(b),
        can_index(a) ==> alike(child(a, key), child(b, key)),
{
    let x = entries_of(a);
    let y = entries_of(b);
    if can_index(a) {
        assert(entries_alike(x, y));
        assert(present(x, key) == present(y, key));
        if present(x, key) {
            assert(x.values.contains_key(key));
        }
    }
}

/// Items that hold the same value still do with the same value put under a key.
proof fn lemma_with_child_alike(a: Node, b: Node, key: Seq<char>, v: Node, w: Node)
    requires
        alike(a, b),
        can_index(a),
        alike(v, w),
    ensures
        alike(with_child(a, key, v), with_child(b, key, w)),
{
    assert(entries_alike(entries_of(a), entries_of(b)));
    lemma_insert_alike(entries_of(a), entries_of(b), key, v, w);
}

/// Of tables that hold the same values, and in which every key has one, the same
/// dependencies can be taken out, and what is left holds the same.
proof fn lemma_without_alike(x: Entries, y: Entries, list: Seq<Seq<char>>)
    requires
        entries_alike(x, y),
        all_valued(Node::Table(x)),
        all_valued(Node::Table(y)),
        without(x, list) is Ok,
    ensures
        without(y, list) is Ok,
        entries_alike(without(x, list)->Ok_0, without(y, list)->Ok_0),
        all_valued(Node::Table(without(x, list)->Ok_0)),
    decreases list.len(),
{
    if list.len() > 0 {
        assert forall|k: Seq<char>| x.contains_key(k) == #[trigger] y.contains_key(k) by {
            assert(present(x, k) == present(y, k));
            assert(x.values.contains_key(k) ==> !(x.values[k] is Nothing));
            assert(y.values.contains_key(k) ==> !(y.values[k] is Nothing));
        }
        let key = key_of(x, list[0])->Some_0;
        assert(x.contains_key(list[0]) == y.contains_key(list[0]));
        if alias(list[0]) is Some {
            assert(x.contains_key(alias(list[0])->Some_0) == y.contains_key(
                alias(list[0])->Some_0,
            ));
        }
        let p = x.remove(key);
        let q = y.remove(key);
        assert(entries_alike(p, q)) by {
            assert forall|k: Seq<char>| present(p, k) == #[trigger] present(q, k) by {
                assert(present(x, k) == present(y, k));
            }
            assert forall|k: Seq<char>| #[trigger]
                p.values.contains_key(k) && !(p.values[k] is Nothing) implies alike(
                p.values[k],
                q.values[k],
            ) by {
                assert(x.values.contains_key(k));
            }
        }
        lemma_remove_valued(x, key);
        lemma_remove_valued(y, key);
        lemma_without_alike(p, q, list.skip(1));
    }
}

proof fn lemma_remove_valued(entries: Entries, key: Seq<char>)
    requires
        all_valued(Node::Table(entries)),
    ensures
        all_valued(Node::Table(entries.remove(key))),
{
    let left = entries.remove(key);
    assert forall|k: Seq<char>| #[trigger] left.values.contains_key(k) implies !(
    left.values[k] is Nothing) && all_valued(left.values[k]) by {
        assert(entries.values.contains_key(k));
    }
}

/// Lists that hold the same still do without the same ignored dependencies.
proof fn lemma_still_ignored_alike(
    nodes: Seq<Node>,
    others: Seq<Node>,
    ignored_used: Seq<Seq<char>>,
)
    requires
        alike(Node::Array(nodes), Node::Array(others)),
    ensures
        alike(
            Node::Array(still_ignored(nodes, ignored_used)),
            Node::Array(still_ignored(others, ignored_used)),
        ),
        all_text(nodes) == all_text(others),
    decreases nodes.len(),
{
    reveal(Seq::filter);
    assert forall|i: int| 0 <= i < nodes.len() implies alike(#[trigger] nodes[i], others[i]) by {}
    assert forall|i: int| 0 <= i < nodes.len() implies (#[trigger] nodes[i] is Text)
        == others[i] is Text by {
        assert(alike(nodes[i], others[i]));
    }
    assert(all_text(nodes) == all_text(others)) by {
        if all_text(nodes) {
            assert forall|i: int| 0 <= i < others.len() implies (#[trigger] others[i]) is Text by {
                assert(nodes[i] is Text);
            }
        }
    }
    if nodes.len() > 0 {
        let n = nodes.len() - 1;
        let a = nodes.drop_last();
        let b = others.drop_last();
        assert(alike(Node::Array(a), Node::Array(b))) by {
            assert forall|i: int| 0 <= i < a.len() implies alike(#[trigger] a[i], b[i]) by {
                assert(a[i] == nodes[i]);
            }
        }
        lemma_still_ignored_alike(a, b, ignored_used);
        assert(alike(nodes[n], others[n]));
        let p = still_ignored(a, ignored_used);
        let q = still_ignored(b, ignored_used);
        assert(p.len() == q.len());
        let last = nodes[n];
        assert(names_one(last, ignored_used) == names_one(others[n], ignored_used));
        if !names_one(last, ignored_used) {
            let ps = p.push(last);
            let qs = q.push(others[n]);
            assert(still_ignored(nodes, ignored_used) == ps);
            assert(still_ignored(others, ignored_used) == qs);
            assert forall|i: int| 0 <= i < ps.len() implies alike(#[trigger] ps[i], qs[i]) by {
                if i < p.len() {
                    assert(ps[i] == p[i]);
                    assert(alike(p[i], q[i]));
                }
            }
        }
    }
}

/// The same for the settings of this tool.
proof fn lemma_unignored_alike(a: Node, b: Node, ignored_used: Seq<Seq<char>>)
    requires
        alike(a, b),
        unignored(a, ignored_used) is Some,
    ensures
        unignored(b, ignored_used) is Some,
        alike(unignored(a, ignored_used)->Some_0, unignored(b, ignored_used)->Some_0),
{
    if let Node::Table(x) = a {
        let y = b->Table_0;
        assert(entries_alike(x, y));
        assert(present(x, "ignored"@) == present(y, "ignored"@));
        if present(x, "ignored"@) {
            assert(x.values.contains_key("ignored"@));
            assert(alike(x["ignored"@], y["ignored"@]));
            let nodes = x["ignored"@]->Array_0;
            let others = y["ignored"@]->Array_0;
            lemma_still_ignored_alike(nodes, others, ignored_used);
            lemma_insert_alike(
                x,
                y,
                "ignored"@,
                Node::Array(still_ignored(nodes, ignored_used)),
                Node::Array(still_ignored(others, ignored_used)),
            );
        }
    }
}

/// The same for a manifest with those settings.
proof fn lemma_settings_alike(a: Node, b: Node, ignored_used: Seq<Seq<char>>)
    requires
        alike(a, b),
        with_settings_edited(a, ignored_used) is Some,
    ensures
        with_settings_edited(b, ignored_used) is Some,
        alike(
            with_settings_edited(a, ignored_used)->Some_0,
            with_settings_edited(b, ignored_used)->Some_0,
        ),
{
    lemma_child_alike(a, b, "package"@);
    let pa = child(a, "package"@);
    let pb = child(b, "package"@);
    lemma_child_alike(pa, pb, "metadata"@);
    let ma = child(pa, "metadata"@);
    let mb = child(pb, "metadata"@);
    lemma_child_alike(ma, mb, "cargo-machete"@);
    let sa = child(ma, "cargo-machete"@);
    let sb = child(mb, "cargo-machete"@);
    lemma_unignored_alike(sa, sb, ignored_used);
    let ua = unignored(sa, ignored_used)->Some_0;
    let ub = unignored(sb, ignored_used)->Some_0;
    lemma_with_child_alike(ma, mb, "cargo-machete"@, ua, ub);
    let na = with_child(ma, "cargo-machete"@, ua);
    let nb = with_child(mb, "cargo-machete"@, ub);
    lemma_with_child_alike(pa, pb, "metadata"@, na, nb);
    let qa = with_child(pa, "metadata"@, na);
    let qb = with_child(pb, "metadata"@, nb);
    lemma_with_child_alike(a, b, "package"@, qa, qb);
}

/// Manifests that hold the same values can be fixed alike, and hold the same values then.
pub proof fn law_fixes_go_by_values(
    x: Entries,
    y: Entries,
    list: Seq<Seq<char>>,
    ignored_used: Seq<Seq<char>>,
)
    requires
        alike(Node::Table(x), Node::Table(y)),
        fixed_entries(x, list, ignored_used) matches Some(Ok(_)),
        all_valued(Node::Table(dependencies_of(x))),
        all_valued(Node::Table(dependencies_of(y))),
    ensures
        fixed_entries(y, list, ignored_used) matches Some(Ok(_)),
        alike(
            fixed_entries(x, list, ignored_used)->Some_0->Ok_0,
            fixed_entries(y, list, ignored_used)->Some_0->Ok_0,
        ),
{
    assert(entries_alike(x, y));
    assert(present(x, "dependencies"@) == present(y, "dependencies"@));
    assert(x.values.contains_key("dependencies"@));
    assert(alike(x["dependencies"@], y["dependencies"@]));
    let dx = dependencies_of(x);
    let dy = dependencies_of(y);
    assert(entries_alike(dx, dy));
    lemma_without_alike(dx, dy, list);
    let lx = Node::Table(without(dx, list)->Ok_0);
    let ly = Node::Table(without(dy, list)->Ok_0);
    assert(alike(lx, ly));
    lemma_insert_alike(x, y, "dependencies"@, lx, ly);
    let a = Node::Table(x.insert("dependencies"@, lx));
    let b = Node::Table(y.insert("dependencies"@, ly));
    assert(alike(a, b));
    lemma_settings_alike(a, b, ignored_used);
}

/// Whether a text is a manifest that holds the same values as `root`.
pub open spec fn reads_back(text: Seq<char>, root: Node) -> bool {
    parsed_manifest(text) is Ok && alike(Node::Table(parsed_manifest(text)->Ok_0), root)
}

/// Two fixes in a row, the second of the text that the first gave, are one fix with both lists
/// of dependencies and both lists of ignored dependencies: this one succeeds as well, and its
/// manifest holds the same values. It counts on the text between the two fixes reading back as
/// the values that were printed; where the texts at the end do so too, they read as the same
/// values.
pub proof fn law_two_fixes_of_a_text_are_one(
    text: Seq<char>,
    a: Seq<Seq<char>>,
    i: Seq<Seq<char>>,
    between: Seq<char>,
    b: Seq<Seq<char>>,
    j: Seq<Seq<char>>,
    last: Seq<char>,
    at_once: Seq<char>,
)
    requires
        fixed_manifest(text, a, i) matches Some(Ok(_)),
        fixed_manifest(between, b, j) matches Some(Ok(_)),
        all_valued(Node::Table(parsed_manifest(text)->Ok_0)),
        all_valued(Node::Table(parsed_manifest(between)->Ok_0)),
        reads_back(between, fixed_manifest(text, a, i)->Some_0->Ok_0),
    ensures
        ({
            let second = fixed_manifest(between, b, j)->Some_0->Ok_0;
            let both = fixed_manifest(text, a + b, i + j);
            &&& both matches Some(Ok(_))
            &&& alike(both->Some_0->Ok_0, second)
            &&& reads_back(last, second) && reads_back(at_once, both->Some_0->Ok_0) ==> alike(
                Node::Table(parsed_manifest(at_once)->Ok_0),
                Node::Table(parsed_manifest(last)->Ok_0),
            )
        }),
{
    let entries = parsed_manifest(text)->Ok_0;
    let again = parsed_manifest(between)->Ok_0;
    let once = entries_of(fixed_manifest(text, a, i)->Some_0->Ok_0);
    let d = dependencies_of(entries);
    assert(entries.values.contains_key("dependencies"@));
    assert(again.values.contains_key("dependencies"@));
    assert(all_valued(Node::Table(d)));
    assert(all_valued(Node::Table(dependencies_of(again))));
    law_alike_reflexive(Node::Table(d));
    lemma_without_alike(d, d, a);
    law_fix_keeps_the_rest(entries, a, i, "dependencies"@);
    assert(all_valued(Node::Table(dependencies_of(once))));
    law_fixes_go_by_values(again, once, b, j);
    law_two_fixes_are_one(entries, a, i, b, j);
    let second = fixed_manifest(between, b, j)->Some_0->Ok_0;
    let both = fixed_manifest(text, a + b, i + j)->Some_0->Ok_0;
    law_alike_symmetric(second, both);
    if reads_back(last, second) && reads_back(at_once, both) {
        let x = Node::Table(parsed_manifest(at_once)->Ok_0);
        let y = Node::Table(parsed_manifest(last)->Ok_0);
        law_alike_transitive(x, both, second);
        law_alike_symmetric(y, second);
        law_alike_transitive(x, second, y);
    }
}

/// The other spelling of a name has its length, holds the other sign wherever the name holds
/// the one that is replaced, and agrees with it everywhere else. A name with `_` has its `_`
/// replaced, else one with `-` has its `-` replaced, and any other name has one spelling only.
pub proof fn law_other_spelling(name: Seq<char>)
    ensures
        alias(name) is Some <==> name.contains('_') || name.contains('-'),
        alias(name) matches Some(other) ==> {
            &&& other.len() == name.len()
            &&& name.contains('_') ==> forall|i: int|
                0 <= i < name.len() ==> #[trigger] other[i] == if name[i] == '_' {
                    '-'
                } else {
                    name[i]
                }
            &&& !name.contains('_') ==> forall|i: int|
                0 <= i < name.len() ==> #[trigger] other[i] == if name[i] == '-' {
                    '_'
                } else {
                    name[i]
                }
        },
{
}

/// A name with `_` and no `-`, or with `-` and no `_`, is the other spelling of its other
/// spelling.
pub proof fn law_other_spelling_and_back(name: Seq<char>)
    requires
        name.contains('_') != name.contains('-'),
    ensures
        alias(name) is Some,
        alias(alias(name)->Some_0) == Some(name),
{
    let other = alias(name)->Some_0;
    if name.contains('_') {
        let i = choose|i: int| 0 <= i < name.len() && name[i] == '_';
        assert(other[i] == '-');
        assert(!other.contains('_'));
        assert forall|k: int| 0 <= k < name.len() implies name[k] != '-' by {
            if name[k] == '-' {
                assert(name.contains('-'));
            }
        }
        assert(replaced(other, '-', '_') =~= name);
    } else {
        let i = choose|i: int| 0 <= i < name.len() && name[i] == '-';
        assert(other[i] == '_');
        assert forall|k: int| 0 <= k < name.len() implies name[k] != '_' by {
            if name[k] == '_' {
                assert(name.contains('_'));
            }
        }
        assert(replaced(other, '_', '-') =~= name);
    }
}

/// Whether `key` spells `name` the other way, sign by sign: with `-` wherever the name has `_`
/// or, for a name without `_`, with `_` wherever it has `-`.
pub open spec fn spells_otherwise(name: Seq<char>, key: Seq<char>) -> bool {
    &&& name.len() == key.len()
    &&& name.contains('_') || name.contains('-')
    &&& forall|i: int|
        0 <= i < name.len() ==> #[trigger] key[i] == if name[i] == '_' {
            '-'
        } else if name[i] == '-' && !name.contains('_') {
            '_'
        } else {
            name[i]
        }
}

/// A dependency that stands in a table leaves it when asked for by its own name or, if that is
/// not there, by a name that its key spells the other way. Everything else stays as it is.
pub proof fn law_dependency_leaves_by_either_spelling(
    entries: Entries,
    name: Seq<char>,
    key: Seq<char>,
)
    requires
        entries.values.contains_key(key),
        name == key || !entries.values.contains_key(name) && spells_otherwise(name, key),
    ensures
        without(entries, seq![name]) is Ok,
        ({
            let left = without(entries, seq![name])->Ok_0;
            &&& !left.values.contains_key(key)
            &&& forall|k: Seq<char>|
                k != key ==> (#[trigger] left.values.contains_key(k)
                    <==> entries.values.contains_key(k))
            &&& forall|k: Seq<char>|
                k != key && #[trigger] left.values.contains_key(k) ==> left.values[k]
                    == entries.values[k]
        }),
{
    if name != key {
        assert(alias(name)->Some_0 =~= key);
    }
    assert(seq![name].skip(1) =~= Seq::<Seq<char>>::empty());
    assert(without(entries, seq![name]) == without(entries.remove(key), seq![name].skip(1)));
    assert(without(entries, seq![name]) == Ok::<Entries, Seq<char>>(entries.remove(key)));
}

/// A dependency that a table holds neither under its name nor under a key that spells it the
/// other way is refused, by the name that was asked for.
pub proof fn law_dependency_is_refused_by_neither_spelling(entries: Entries, name: Seq<char>)
    requires
        !entries.values.contains_key(name),
        forall|key: Seq<char>| #[trigger]
            entries.values.contains_key(key) ==> !spells_otherwise(name, key),
    ensures
        without(entries, seq![name]) == Err::<Entries, Seq<char>>(name),
{
    if alias(name) is Some {
        let other = alias(name)->Some_0;
        if entries.values.contains_key(other) {
            assert(spells_otherwise(name, other));
        }
    }
    assert(seq![name][0] == name);
}

/// Taking two lists out of a table is taking out the first and then the second, and a name that
/// is refused on the way stops it.
pub proof fn law_lists_leave_in_turn(entries: Entries, a: Seq<Seq<char>>, b: Seq<Seq<char>>)
    ensures
        without(entries, a) is Ok ==> without(entries, a + b) == without(
            without(entries, a)->Ok_0,
            b,
        ),
        without(entries, a) is Err ==> without(entries, a + b) == without(entries, a),
        a.len() == 0 ==> without(entries, a) == Ok::<Entries, Seq<char>>(entries),
    decreases a.len(),
{
    if a.len() == 0 {
        assert(a + b =~= b);
    } else {
        assert((a + b)[0] == a[0]);
        assert((a + b).skip(1) =~= a.skip(1) + b);
        if key_of(entries, a[0]) is Some {
            law_lists_leave_in_turn(entries.remove(key_of(entries, a[0])->Some_0), a.skip(1), b);
        }
    }
}

/// A value leaves the list of ignored dependencies exactly if it is a string that is asked to
/// leave, and what is left of two lists together is what is left of each.
pub proof fn law_ignored_list_in_parts(
    a: Seq<Node>,
    b: Seq<Node>,
    node: Node,
    ignored_used: Seq<Seq<char>>,
)
    ensures
        still_ignored(a + b, ignored_used) == still_ignored(a, ignored_used) + still_ignored(
            b,
            ignored_used,
        ),
        still_ignored(seq![node], ignored_used) == if node is Text && ignored_used.contains(
            node->Text_0,
        ) {
            Seq::<Node>::empty()
        } else {
            seq![node]
        },
{
    Seq::filter_distributes_over_add(a, b, names_none(ignored_used));
    reveal(Seq::filter);
    assert(seq![node].drop_last() =~= Seq::<Node>::empty());
    assert(seq![node].drop_last().filter(names_none(ignored_used)) =~= Seq::<Node>::empty());
    assert(seq![node].last() == node);
    assert(Seq::<Node>::empty().push(node) =~= seq![node]);
}

/// What becomes of the settings of this tool: they change only if they are a table that holds a
/// list of ignored dependencies, and then only in that list. They cannot be read exactly if
/// that list is no array, or holds more than strings while something is to leave it.
pub proof fn law_settings_change_in_the_list_only(settings: Node, ignored_used: Seq<Seq<char>>)
    ensures
        ({
            let listed = settings is Table && settings->Table_0.values.contains_key("ignored"@)
                && !(settings->Table_0.values["ignored"@] is Nothing);
            let list = settings->Table_0.values["ignored"@];
            let r = unignored(settings, ignored_used);
            &&& !listed ==> r == Some(settings)
            &&& listed ==> (r is None <==> !(list is Array) || (ignored_used.len() > 0 && exists|
                i: int,
            |
                0 <= i < list->Array_0.len() && !((#[trigger] list->Array_0[i]) is Text)))
            &&& listed && r is Some ==> {
                let before = settings->Table_0;
                let after = r->Some_0->Table_0;
                &&& r->Some_0 is Table
                &&& after.keys == before.keys
                &&& after.values.dom() == before.values.dom()
                &&& forall|key: Seq<char>|
                    key != "ignored"@ && #[trigger] before.values.contains_key(key)
                        ==> after.values[key] == before.values[key]
                &&& after.values["ignored"@] == Node::Array(
                    still_ignored(list->Array_0, ignored_used),
                )
                &&& forall|node: Node|
                    after.values["ignored"@]->Array_0.contains(node) <==> #[trigger]
                    list->Array_0.contains(node) && !(node is Text && ignored_used.contains(
                        node->Text_0,
                    ))
            }
        }),
{
    if settings is Table && present(settings->Table_0, "ignored"@) {
        let list = settings->Table_0.values["ignored"@];
        if list is Array {
            let nodes = list->Array_0;
            law_ignored_used_leave(nodes, ignored_used);
            if !all_text(nodes) {
                let i = choose|i: int| 0 <= i < nodes.len() && !((#[trigger] nodes[i]) is Text);
                assert(!(nodes[i] is Text));
            }
            if unignored(settings, ignored_used) is Some {
                assert(unignored(settings, ignored_used)->Some_0->Table_0.values.dom()
                    =~= settings->Table_0.values.dom());
            }
        }
    }
}

/// What stands under a key in a table of either kind; anything else holds nothing.
pub open spec fn under(node: Node, key: Seq<char>) -> Node {
    if node is Table && node->Table_0.values.contains_key(key) {
        node->Table_0.values[key]
    } else if node is Inline && node->Inline_0.values.contains_key(key) {
        node->Inline_0.values[key]
    } else {
        Node::Nothing
    }
}

/// How a fix comes out: it is refused if there is no table of dependencies, if that is written
/// in braces, or if a dependency is not found; else it gives up if the settings cannot be
/// reached through tables or cannot be read; and else it succeeds.
pub proof fn law_how_a_fix_comes_out(
    entries: Entries,
    list: Seq<Seq<char>>,
    ignored_used: Seq<Seq<char>>,
)
    ensures
        ({
            let r = fixed_entries(entries, list, ignored_used);
            let dependencies = under(Node::Table(entries), "dependencies"@);
            let package = under(Node::Table(entries), "package"@);
            let metadata = under(package, "metadata"@);
            let settings = under(metadata, "cargo-machete"@);
            let found = without(dependencies->Table_0, list);
            &&& r == Some(Err::<Node, Refusal>(Refusal::MissingTable)) <==> !(
            dependencies is Table) && !(dependencies is Inline)
            &&& r == Some(Err::<Node, Refusal>(Refusal::InlineTable)) <==> dependencies is Inline
            &&& dependencies is Table && found is Err ==> r == Some(
                Err::<Node, Refusal>(Refusal::NotFound(found->Err_0)),
            )
            &&& (r is Some && r->Some_0 is Err && r->Some_0->Err_0 is NotFound)
                ==> dependencies is Table && found is Err
            &&& r is None <==> dependencies is Table && found is Ok && (!(package is Nothing
                || package is Table || package is Inline) || !(metadata is Nothing
                || metadata is Table || metadata is Inline) || unignored(
                settings,
                ignored_used,
            ) is None)
            &&& (r is Some && r->Some_0 is Ok) <==> dependencies is Table && found is Ok && (
            package is Nothing || package is Table || package is Inline) && (metadata is Nothing
                || metadata is Table || metadata is Inline) && unignored(
                settings,
                ignored_used,
            ) is Some
        }),
{
    reveal_strlit("dependencies");
    reveal_strlit("package");
    assert("dependencies"@.len() != "package"@.len());
    let root = Node::Table(entries);
    assert(child(root, "package"@) == under(root, "package"@));
    let package = child(root, "package"@);
    assert(child(package, "metadata"@) == under(package, "metadata"@));
    let metadata = child(package, "metadata"@);
    assert(child(metadata, "cargo-machete"@) == under(metadata, "cargo-machete"@));
    if present(entries, "dependencies"@) && entries["dependencies"@] is Table {
        let found = without(entries["dependencies"@]->Table_0, list);
        if found is Ok {
            let edited = Node::Table(
                entries.insert("dependencies"@, Node::Table(found->Ok_0)),
            );
            assert(child(edited, "package"@) == package);
        }
    }
}

/// What a successful fix leaves, key by key: in the table of dependencies what is left of it,
/// under `package`, `metadata` and the name of this tool the edited settings, and everything
/// else as it was. Tables on the way to the settings keep how they are written, and those that
/// were not there are written in braces.
pub proof fn law_what_a_fix_leaves(
    entries: Entries,
    list: Seq<Seq<char>>,
    ignored_used: Seq<Seq<char>>,
    key: Seq<char>,
)
    requires
        fixed_entries(entries, list, ignored_used) matches Some(Ok(_)),
    ensures
        ({
            let before = Node::Table(entries);
            let after = fixed_entries(entries, list, ignored_used)->Some_0->Ok_0;
            let package = under(before, "package"@);
            let metadata = under(package, "metadata"@);
            let new_package = under(after, "package"@);
            let new_metadata = under(new_package, "metadata"@);
            &&& after is Table
            &&& under(after, "dependencies"@) == Node::Table(
                without(under(before, "dependencies"@)->Table_0, list)->Ok_0,
            )
            &&& key != "dependencies"@ && key != "package"@ ==> under(after, key) == under(
                before,
                key,
            )
            &&& key != "metadata"@ ==> under(new_package, key) == under(package, key)
            &&& key != "cargo-machete"@ ==> under(new_metadata, key) == under(metadata, key)
            &&& Some(under(new_metadata, "cargo-machete"@)) == unignored(
                under(metadata, "cargo-machete"@),
                ignored_used,
            )
            &&& new_package is Table <==> package is Table
            &&& new_package is Inline <==> !(package is Table)
            &&& new_metadata is Table <==> metadata is Table
            &&& new_metadata is Inline <==> !(metadata is Table)
        }),
{
    reveal_strlit("dependencies");
    reveal_strlit("package");
    assert("dependencies"@.len() != "package"@.len());
    law_how_a_fix_comes_out(entries, list, ignored_used);
    law_fix_keeps_the_rest(entries, list, ignored_used, key);
    let after = fixed_entries(entries, list, ignored_used)->Some_0->Ok_0;
    assert(after is Table);
    assert(child(after, key) == under(after, key));
    assert(child(after, "package"@) == under(after, "package"@));
}

/// A manifest that is no TOML document is refused with what the parser says, and any other goes
/// by what it holds.
pub proof fn law_unparsable_manifest_is_refused(
    text: Seq<char>,
    list: Seq<Seq<char>>,
    ignored_used: Seq<Seq<char>>,
)
    ensures
        parsed_manifest(text) matches Err(message) ==> fixed_manifest(text, list, ignored_used)
            == Some(Err::<Node, Refusal>(Refusal::Unparsable(message))),
        parsed_manifest(text) matches Ok(entries) ==> fixed_manifest(text, list, ignored_used)
            == fixed_entries(entries, list, ignored_used),
{
}

/// An error says what was refused, with the name or the message that belongs to it.
pub proof fn law_error_says_what_was_refused(e: FixError)
    ensures
        e matches FixError::Unparsable(message) ==> refusal_text(e@) == message@,
        e matches FixError::NotFound(name) ==> refusal_text(e@) == "Dependency "@ + name@
            + " not found"@,
        (e is MissingTable <==> e@ is MissingTable) && (e is InlineTable <==> e@ is InlineTable),
        (e is Unparsable <==> e@ is Unparsable) && (e is NotFound <==> e@ is NotFound),
        e matches FixError::Unparsable(message) ==> e@->Unparsable_0 == message@,
        e matches FixError::NotFound(name) ==> e@->NotFound_0 == name@,
{
}

/// A text that a fix gives is what some document prints as, and that document holds the fixed
/// manifest and nothing else.
pub proof fn law_printed_text_comes_from_the_fixed_document(text: Seq<char>, root: Node)
    requires
        prints(text, root),
    ensures
        exists|document: toml_edit::Document|
            #![trigger document_node(document)]
            document_node(document) == root && document_text(document) == text,
{
    let document = choose|document: toml_edit::Document|
        #![trigger document_text(document)]
        document_text(document) == text && document_node(document) == root;
    assert(document_node(document) == root);
}

/// A key put into a table is found there with its value, behind the keys that were there if it
/// is new, and a key taken out is not; what other keys hold stays.
pub proof fn law_entries_hold_what_was_put(
    entries: Entries,
    key: Seq<char>,
    value: Node,
    other: Seq<char>,
)
    requires
        other != key,
    ensures
        entries.insert(key, value).values.contains_key(key),
        entries.insert(key, value).values[key] == value,
        entries.values.contains_key(key) ==> entries.insert(key, value).keys == entries.keys,
        !entries.values.contains_key(key) ==> entries.insert(key, value).keys.len()
            == entries.keys.len() + 1 && entries.insert(key, value).keys.last() == key
            && entries.insert(key, value).keys.drop_last() == entries.keys,
        !entries.remove(key).values.contains_key(key),
        entries.insert(key, value).values.contains_key(other) <==> entries.values.contains_key(
            other,
        ),
        entries.remove(key).values.contains_key(other) <==> entries.values.contains_key(other),
        entries.values.contains_key(other) ==> entries.insert(key, value).values[other]
            == entries.values[other] && entries.remove(key).values[other] == entries.values[other],
{
    assert(entries.keys.push(key).drop_last() =~= entries.keys);
}

} // verus!
