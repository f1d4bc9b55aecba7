//! The shared stores behind the index: concurrent maps of the `dashmap`
//! crate, keyed by file or directory path. Verus sees each store through a
//! name for its contents and through small trusted wrappers around the
//! methods the index calls; everything above them is verified.

use crate::symbol::SymbolTable;
use crate::tree::SyntaxTree;
use dashmap::{DashMap, DashSet};
use vstd::prelude::*;

verus! {

#[verifier::external_type_specification]
#[verifier::external_body]
#[verifier::reject_recursive_types(K)]
#[verifier::reject_recursive_types(V)]
#[verifier::reject_recursive_types(S)]
pub struct ExDashMap<K, V, S>(DashMap<K, V, S>);

#[verifier::external_type_specification]
#[verifier::external_body]
#[verifier::reject_recursive_types(K)]
#[verifier::reject_recursive_types(S)]
pub struct ExDashSet<K, S>(DashSet<K, S>);

/// What the text store holds: each file's current text, by path.
pub uninterp spec fn src_contents(m: DashMap<String, String>) -> Map<Seq<char>, Seq<char>>;

/// What the tree store holds: each file's parsed record, by path.
pub uninterp spec fn tree_contents(m: DashMap<String, SyntaxTree>) -> Map<Seq<char>, SyntaxTree>;

/// What the symbol store holds: each file's symbol table, by path.
pub uninterp spec fn sym_contents(m: DashMap<String, SymbolTable>) -> Map<Seq<char>, SymbolTable>;

/// What the dependency store holds: each config directory's resolved
/// dependency paths, as a set, by directory.
pub uninterp spec fn cfg_contents(m: DashMap<String, Vec<String>>) -> Map<
    Seq<char>,
    Set<Seq<char>>,
>;

/// What the workspace-root store holds: the registered root directories.
pub uninterp spec fn ws_contents(s: DashSet<String>) -> Set<Seq<char>>;

/// A text store with nothing in it.
pub open spec fn empty_src_contents() -> Map<Seq<char>, Seq<char>> {
    Map::empty()
}

/// A tree store with nothing in it.
pub open spec fn empty_tree_contents() -> Map<Seq<char>, SyntaxTree> {
    Map::empty()
}

/// A symbol store with nothing in it.
pub open spec fn empty_sym_contents() -> Map<Seq<char>, SymbolTable> {
    Map::empty()
}

/// A dependency store with nothing in it.
pub open spec fn empty_cfg_contents() -> Map<Seq<char>, Set<Seq<char>>> {
    Map::empty()
}

/// Relies on dashmap::DashMap::new: a fresh map holds nothing.
#[verifier::external_body]
pub(crate) fn src_store_new() -> (r: DashMap<String, String>)
    ensures
        src_contents(r) == empty_src_contents(),
{
    DashMap::new()
}

/// Relies on dashmap::DashMap::insert: the value stands under the key,
/// replacing any earlier value there; no other key moves.
#[verifier::external_body]
pub(crate) fn src_store_insert(m: &mut DashMap<String, String>, k: String, v: String)
    ensures
        src_contents(*final(m)) == src_contents(*old(m)).insert(k@, v@),
{
    let _prev = m.insert(k, v);
}

/// Relies on dashmap::DashMap::new: a fresh map holds nothing.
#[verifier::external_body]
pub(crate) fn tree_store_new() -> (r: DashMap<String, SyntaxTree>)
    ensures
        tree_contents(r) == empty_tree_contents(),
{
    DashMap::new()
}

/// Relies on dashmap::DashMap::insert: the value stands under the key,
/// replacing any earlier value there; no other key moves.
#[verifier::external_body]
pub(crate) fn tree_store_insert(m: &mut DashMap<String, SyntaxTree>, k: String, v: SyntaxTree)
    ensures
        tree_contents(*final(m)) == tree_contents(*old(m)).insert(k@, v),
{
    let _prev = m.insert(k, v);
}

/// Relies on dashmap::DashMap::get: the value under the key, when present.
#[verifier::external_body]
pub(crate) fn tree_store_get(m: &DashMap<String, SyntaxTree>, k: &str) -> (r: Option<SyntaxTree>)
    ensures
        match r {
            Some(v) => tree_contents(*m).dom().contains(k@) && v == tree_contents(*m)[k@],
            None => !tree_contents(*m).dom().contains(k@),
        },
{
    m.get(k).map(|e| e.value().clone())
}

/// Relies on dashmap::DashMap::new: a fresh map holds nothing.
#[verifier::external_body]
pub(crate) fn sym_store_new() -> (r: DashMap<String, SymbolTable>)
    ensures
        sym_contents(r) == empty_sym_contents(),
{
    DashMap::new()
}

/// Relies on dashmap::DashMap::insert: the value stands under the key,
/// replacing any earlier value there; no other key moves.
#[verifier::external_body]
pub(crate) fn sym_store_insert(m: &mut DashMap<String, SymbolTable>, k: String, v: SymbolTable)
    ensures
        sym_contents(*final(m)) == sym_contents(*old(m)).insert(k@, v),
{
    let _prev = m.insert(k, v);
}

/// Relies on dashmap::DashMap::get: the value under the key, when present.
#[verifier::external_body]
pub(crate) fn sym_store_get(m: &DashMap<String, SymbolTable>, k: &str) -> (r: Option<SymbolTable>)
    ensures
        match r {
            Some(v) => sym_contents(*m).dom().contains(k@) && v == sym_contents(*m)[k@],
            None => !sym_contents(*m).dom().contains(k@),
        },
{
    m.get(k).map(|e| e.value().clone())
}

/// Relies on dashmap::DashMap::contains_key.
#[verifier::external_body]
pub(crate) fn sym_store_contains(m: &DashMap<String, SymbolTable>, k: &str) -> (r: bool)
    ensures
        r == sym_contents(*m).dom().contains(k@),
{
    m.contains_key(k)
}

/// Relies on dashmap::DashMap::iter: every entry exactly once, in no
/// promised order.
#[verifier::external_body]
pub(crate) fn sym_store_entries(m: &DashMap<String, SymbolTable>) -> (r: Vec<(String, SymbolTable)>)
    ensures
        forall|i: int|
            0 <= i < r@.len() ==> #[trigger] sym_contents(*m).contains_pair(r@[i].0@, r@[i].1),
        forall|k: Seq<char>|
            #[trigger] sym_contents(*m).dom().contains(k) ==> exists|i: int|
                0 <= i < r@.len() && r@[i].0@ == k,
        forall|i: int, j: int| 0 <= i < j < r@.len() ==> r@[i].0@ != r@[j].0@,
{
    m.iter().map(|e| (e.key().clone(), e.value().clone())).collect()
}

/// Relies on dashmap::DashMap::new: a fresh map holds nothing.
#[verifier::external_body]
pub(crate) fn cfg_store_new() -> (r: DashMap<String, Vec<String>>)
    ensures
        cfg_contents(r) == empty_cfg_contents(),
{
    DashMap::new()
}

/// Relies on dashmap::DashMap::insert: the value stands under the key,
/// replacing any earlier value there; no other key moves.
#[verifier::external_body]
pub(crate) fn cfg_store_insert(m: &mut DashMap<String, Vec<String>>, k: String, v: Vec<String>)
    ensures
        cfg_contents(*final(m)) == cfg_contents(*old(m)).insert(k@, v.deep_view().to_set()),
{
    let _prev = m.insert(k, v);
}

/// Relies on dashmap::DashMap::clear: afterwards the map holds nothing.
#[verifier::external_body]
pub(crate) fn cfg_store_clear(m: &mut DashMap<String, Vec<String>>)
    ensures
        cfg_contents(*final(m)) == empty_cfg_contents(),
{
    m.clear();
}

/// Relies on dashmap::DashMap::contains_key.
#[verifier::external_body]
pub(crate) fn cfg_store_contains(m: &DashMap<String, Vec<String>>, k: &str) -> (r: bool)
    ensures
        r == cfg_contents(*m).dom().contains(k@),
{
    m.contains_key(k)
}

/// Relies on dashmap::DashMap::iter: every entry exactly once, in no
/// promised order.
#[verifier::external_body]
pub(crate) fn cfg_store_entries(m: &DashMap<String, Vec<String>>) -> (r: Vec<(String, Vec<String>)>)
    ensures
        forall|i: int|
            0 <= i < r@.len() ==> #[trigger] cfg_contents(*m).contains_pair(
                r@[i].0@,
                r@[i].1.deep_view().to_set(),
            ),
        forall|k: Seq<char>|
            #[trigger] cfg_contents(*m).dom().contains(k) ==> exists|i: int|
                0 <= i < r@.len() && r@[i].0@ == k,
        forall|i: int, j: int| 0 <= i < j < r@.len() ==> r@[i].0@ != r@[j].0@,
{
    m.iter().map(|e| (e.key().clone(), e.value().clone())).collect()
}

/// Relies on dashmap::DashSet::new: a fresh set holds nothing.
#[verifier::external_body]
pub(crate) fn ws_store_new() -> (r: DashSet<String>)
    ensures
        ws_contents(r) == Set::<Seq<char>>::empty(),
{
    DashSet::new()
}

/// Relies on dashmap::DashSet::insert: the value joins the set.
#[verifier::external_body]
pub(crate) fn ws_store_insert(s: &mut DashSet<String>, k: String)
    ensures
        ws_contents(*final(s)) == ws_contents(*old(s)).insert(k@),
{
    let _was_new = s.insert(k);
}

/// Relies on dashmap::DashSet::iter: every element exactly once, in no
/// promised order.
#[verifier::external_body]
pub(crate) fn ws_store_entries(s: &DashSet<String>) -> (r: Vec<String>)
    ensures
        forall|i: int| 0 <= i < r@.len() ==> ws_contents(*s).contains(#[trigger] r@[i]@),
        forall|k: Seq<char>|
            #[trigger] ws_contents(*s).contains(k) ==> exists|i: int|
                0 <= i < r@.len() && r@[i]@ == k,
        forall|i: int, j: int| 0 <= i < j < r@.len() ==> r@[i]@ != r@[j]@,
{
    s.iter().map(|e| e.key().clone()).collect()
}

} // verus!
