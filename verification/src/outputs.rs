//! The table of resolved outputs that one run shares: which artifact lies
//! where. It only grows.

use crate::target::output::{Output, OutputKey};
use dashmap::DashMap;
use vstd::prelude::*;
use vstd::string::*;

verus! {

/// `dashmap::DashMap`, a concurrent hash map. Verus sees nothing inside it.
#[verifier::external_type_specification]
#[verifier::external_body]
#[verifier::reject_recursive_types(K)]
#[verifier::reject_recursive_types(V)]
#[verifier::reject_recursive_types(S)]
pub struct ExDashMap<K, V, S>(DashMap<K, V, S>);

/// The map behind the table: from a target's address and a slot's name to a
/// path.
pub type Paths = DashMap<(String, String), Option<String>>;

/// The text of a resolved path; `None` for a path that is no valid text.
pub open spec fn path_text(path: Option<String>) -> Option<Seq<char>> {
    match path {
        Some(p) => Some(p@),
        None => None,
    }
}

/// What a table of outputs holds: for each output that was recorded, the
/// text of its path. This library changes a table through `&mut` only, so
/// what a table holds goes with its value.
pub uninterp spec fn table_entries(table: Paths) -> Map<OutputKey, Option<Seq<char>>>;

/// Calls `DashMap::new`. Trusted: the new map holds nothing.
#[verifier::external_body]
fn table_new() -> (r: Paths)
    ensures
        table_entries(r) =~= Map::empty(),
{
    DashMap::new()
}

/// Calls `DashMap::get` and copies the value out. Trusted: the result is the
/// value stored under `key`, and `None` where the map has no such key.
#[verifier::external_body]
fn table_get(table: &Paths, key: &(String, String)) -> (r: Option<Option<String>>)
    ensures
        r is Some == table_entries(*table).contains_key((key.0@, key.1@)),
        r matches Some(p) ==> path_text(p) == table_entries(*table)[(key.0@, key.1@)],
{
    table.get(key).map(|entry| entry.value().clone())
}

/// Calls `DashMap::insert`. Trusted: afterwards `key` maps to `value`, and
/// every other key to what it mapped to before.
#[verifier::external_body]
fn table_insert(table: &mut Paths, key: (String, String), value: Option<String>)
    ensures
        table_entries(*final(table)) == table_entries(*old(table)).insert(
            (key.0@, key.1@),
            path_text(value),
        ),
{
    table.insert(key, value);
}

/// Where the outputs of the targets built so far lie. An entry is the path of
/// an artifact as text, or `None` where the path cannot be written as text.
pub struct OutputTable {
    paths: Paths,
}

impl View for OutputTable {
    type V = Map<OutputKey, Option<Seq<char>>>;

    closed spec fn view(&self) -> Map<OutputKey, Option<Seq<char>>> {
        table_entries(self.paths)
    }
}

impl OutputTable {
    /// An empty table.
    pub fn new() -> (r: OutputTable)
        ensures
            r@ == Map::<OutputKey, Option<Seq<char>>>::empty(),
    {
        OutputTable { paths: table_new() }
    }

    /// The path recorded for `output`, if one was.
    pub fn get(&self, output: &Output) -> (r: Option<Option<String>>)
        ensures
            r is Some == self@.contains_key(output@),
            r matches Some(p) ==> path_text(p) == self@[output@],
    {
        let key = (output.target().to_string(), String::from_str(output.name()));
        table_get(&self.paths, &key)
    }

    /// Whether a path was recorded for `output`.
    pub fn contains(&self, output: &Output) -> (r: bool)
        ensures
            r == self@.contains_key(output@),
    {
        self.get(output).is_some()
    }

    /// Records that `output` lies at `path`. A path recorded before for the
    /// same output is replaced; every other entry stays.
    pub fn insert(&mut self, output: &Output, path: Option<String>)
        ensures
            final(self)@ == old(self)@.insert(output@, path_text(path)),
    {
        let key = (output.target().to_string(), String::from_str(output.name()));
        table_insert(&mut self.paths, key, path);
    }
}

} // verus!
