//! The project index: the shared stores for text, parsed record, symbol
//! table and dependency sets, the update and refresh protocol over them, and
//! the hover / go-to-definition / completion queries.

use crate::cfg;
use crate::store::{
    cfg_contents, cfg_store_clear, cfg_store_contains, cfg_store_entries, cfg_store_insert,
    cfg_store_new, empty_cfg_contents, empty_src_contents, empty_sym_contents,
    empty_tree_contents, src_contents, src_store_insert, src_store_new, sym_contents,
    sym_store_contains, sym_store_entries, sym_store_get, sym_store_insert, sym_store_new,
    tree_contents, tree_store_get, tree_store_insert, tree_store_new, ws_contents,
    ws_store_entries, ws_store_insert, ws_store_new,
};
use crate::symbol::{
    extract_table, ref_context, resolve_in_table, RefContext, Symbol, SymbolTable, SymbolView,
};
use crate::text;
use crate::tree::{locate, Position, SrcRange, SyntaxTree};
use dashmap::{DashMap, DashSet};
use vstd::prelude::*;
use vstd::string::*;

verus! {

/// Why an update left the derived stores untouched.
#[derive(Clone, Copy, Debug, PartialEq, Eq, Structural)]
pub enum UpdateFailure {
    /// The file's text produced no usable parsed record.
    ParseFailure,
    /// A definition in the parsed record lacked an expected sub-node.
    ExtractionFailure,
}

/// What a completion candidate stands for.
#[derive(Clone, Copy, Debug, PartialEq, Eq, Structural)]
pub enum CompletionKind {
    Function,
    Variable,
}

/// One completion candidate: a name, what it names, and its documentation.
#[derive(Debug, PartialEq, Eq)]
pub struct CompletionItem {
    pub name: String,
    pub kind: CompletionKind,
    pub documentation: String,
}

/// The index: one store per derived artifact, keyed by path, plus the set of
/// registered workspace roots. Writes replace whole values per key.
pub struct Backend {
    pub source_map: DashMap<String, String>,
    pub tree_map: DashMap<String, SyntaxTree>,
    pub symbol_map: DashMap<String, SymbolTable>,
    pub cfg_map: DashMap<String, Vec<String>>,
    pub workspace_dirs: DashSet<String>,
}

impl Backend {
    /// Each file's current text, by path.
    pub open spec fn texts(&self) -> Map<Seq<char>, Seq<char>> {
        src_contents(self.source_map)
    }

    /// Each file's parsed record, by path.
    pub open spec fn trees(&self) -> Map<Seq<char>, SyntaxTree> {
        tree_contents(self.tree_map)
    }

    /// Each file's symbol table, by path.
    pub open spec fn tables(&self) -> Map<Seq<char>, SymbolTable> {
        sym_contents(self.symbol_map)
    }

    /// Each config directory's resolved dependency paths, by directory.
    pub open spec fn deps(&self) -> Map<Seq<char>, Set<Seq<char>>> {
        cfg_contents(self.cfg_map)
    }

    /// The registered workspace roots.
    pub open spec fn roots(&self) -> Set<Seq<char>> {
        ws_contents(self.workspace_dirs)
    }

    /// Every cached parsed record is well formed: what `update_file` admits
    /// is all that ever reaches the tree store.
    pub open spec fn wf(&self) -> bool {
        forall|p: Seq<char>|
            #[trigger] self.trees().dom().contains(p) ==> self.trees()[p].wf()
    }

    /// A fresh index: every store empty.
    pub fn new() -> (r: Self)
        ensures
            r.texts() == empty_src_contents(),
            r.trees() == empty_tree_contents(),
            r.tables() == empty_sym_contents(),
            r.deps() == empty_cfg_contents(),
            r.roots() == Set::<Seq<char>>::empty(),
            r.wf(),
    {
        Backend {
            source_map: src_store_new(),
            tree_map: tree_store_new(),
            symbol_map: sym_store_new(),
            cfg_map: cfg_store_new(),
            workspace_dirs: ws_store_new(),
        }
    }

    /// Register a workspace root directory.
    pub fn add_workspace_dir(&mut self, dir: String)
        ensures
            final(self).roots() == old(self).roots().insert(dir@),
            final(self).texts() == old(self).texts(),
            final(self).trees() == old(self).trees(),
            final(self).tables() == old(self).tables(),
            final(self).deps() == old(self).deps(),
            old(self).wf() ==> final(self).wf(),
    {
        ws_store_insert(&mut self.workspace_dirs, dir);
    }

    /// Whether `parsed` is a usable record: present and well formed.
    pub open spec fn parse_good(parsed: Option<SyntaxTree>) -> bool {
        parsed is Some && parsed->Some_0.wf()
    }

    /// Replace the cached text unconditionally. Replace the parsed record and
    /// the symbol table together, and only when the record is usable and the
    /// whole file extracts; otherwise both keep their cached values and the
    /// failure comes back. Never a partial overwrite.
    pub fn update_file(&mut self, path: String, text: String, parsed: Option<SyntaxTree>) -> (r:
        Result<(), UpdateFailure>)
        ensures
            final(self).texts() == old(self).texts().insert(path@, text@),
            final(self).deps() == old(self).deps(),
            final(self).roots() == old(self).roots(),
            old(self).wf() ==> final(self).wf(),
            Self::update_relates(*old(self), *final(self), path@, text@, parsed),
            match r {
                Ok(()) => {
                    &&& Self::parse_good(parsed)
                    &&& extract_table(parsed->Some_0.nodes@) is Some
                    &&& final(self).trees() == old(self).trees().insert(path@, parsed->Some_0)
                    &&& final(self).tables() == old(self).tables().insert(
                        path@,
                        final(self).tables()[path@],
                    )
                    &&& final(self).tables()[path@]@ == extract_table(
                        parsed->Some_0.nodes@,
                    )->Some_0
                },
                Err(f) => {
                    &&& final(self).trees() == old(self).trees()
                    &&& final(self).tables() == old(self).tables()
                    &&& (f == UpdateFailure::ParseFailure <==> !Self::parse_good(parsed))
                    &&& (f == UpdateFailure::ExtractionFailure <==> Self::parse_good(parsed)
                        && extract_table(parsed->Some_0.nodes@) is None)
                },
            },
    {
        src_store_insert(&mut self.source_map, path.clone(), text);
        proof {
            assert(self.trees() == old(self).trees());
            assert(old(self).wf() ==> self.wf());
        }
        let tree = match parsed {
            Some(tree) => tree,
            None => {
                return Err(UpdateFailure::ParseFailure);
            },
        };
        if !tree.check_wf() {
            return Err(UpdateFailure::ParseFailure);
        }
        let table = match SymbolTable::from_tree(&tree) {
            Ok(table) => table,
            Err(_) => {
                return Err(UpdateFailure::ExtractionFailure);
            },
        };
        tree_store_insert(&mut self.tree_map, path.clone(), tree);
        sym_store_insert(&mut self.symbol_map, path, table);
        Ok(())
    }

    /// Applying the same update a second time changes nothing: the text and
    /// the parsed record stay as the first application left them, and the
    /// symbol table for that path holds the same mathematical table.
    pub proof fn lemma_update_file_idempotent(
        one: Backend,
        two: Backend,
        three: Backend,
        path: Seq<char>,
        text: Seq<char>,
        parsed: Option<SyntaxTree>,
    )
        requires
            Self::update_relates(one, two, path, text, parsed),
            Self::update_relates(two, three, path, text, parsed),
        ensures
            three.texts() == two.texts(),
            three.trees() == two.trees(),
            three.tables().dom() == two.tables().dom(),
            three.tables()[path]@ == two.tables()[path]@,
            forall|q: Seq<char>|
                #[trigger] three.tables().dom().contains(q) && q != path ==> three.tables()[q]
                    == two.tables()[q],
    {
        assert(three.texts() =~= two.texts());
        if Self::parse_good(parsed) && extract_table(parsed->Some_0.nodes@) is Some {
            assert(three.trees() =~= two.trees());
            assert(three.tables().dom() =~= two.tables().dom());
        }
    }

    /// The directories a workspace-root change asks to scan: the tracked
    /// config directories without the removed ones, with the added ones —
    /// restricted to those not already tracked, whose entries would
    /// otherwise be rebuilt for nothing.
    pub fn scan_dirs(&self, added: &Vec<String>, removed: &Vec<String>) -> (r: Vec<String>)
        ensures
            r.deep_view().to_set() == self.deps().dom().difference(
                removed.deep_view().to_set(),
            ).union(added.deep_view().to_set()).difference(self.deps().dom()),
            forall|i: int, j: int|
                0 <= i < j < r.deep_view().len() ==> r.deep_view()[i] != r.deep_view()[j],
    {
        let _ = removed;
        let ghost av = added.deep_view();
        let n: usize = added.len();
        let mut out: Vec<String> = Vec::new();
        let mut i: usize = 0;
        while i < n
            invariant
                av == added.deep_view(),
                n == added@.len(),
                av.len() == n,
                i <= n,
                forall|p: int, q: int|
                    0 <= p < q < out.deep_view().len() ==> out.deep_view()[p]
                        != out.deep_view()[q],
                forall|t: int|
                    0 <= t < out.deep_view().len() ==> av.take(i as int).contains(
                        #[trigger] out.deep_view()[t],
                    ) && !self.deps().dom().contains(out.deep_view()[t]),
                forall|x: Seq<char>|
                    av.take(i as int).contains(x) && !self.deps().dom().contains(x)
                        ==> out.deep_view().contains(x),
            decreases n - i,
        {
            let dir = &added[i];
            let ghost out0 = out.deep_view();
            let already_tracked = cfg_store_contains(&self.cfg_map, dir.as_str());
            let dup = cfg::vec_contains_str(&out, dir.as_str());
            if !already_tracked && !dup {
                out.push(dir.clone());
            }
            proof {
                assert(av.take(i as int + 1).drop_last() =~= av.take(i as int));
                assert(av.take(i as int + 1).last() == av[i as int]);
                assert(dir@ == av[i as int]);
                if !already_tracked && !dup {
                    assert(out.deep_view() =~= out0.push(av[i as int]));
                } else {
                    assert(out.deep_view() =~= out0);
                }
                assert forall|t: int| 0 <= t < out.deep_view().len() implies av.take(
                    i as int + 1,
                ).contains(#[trigger] out.deep_view()[t]) && !self.deps().dom().contains(
                    out.deep_view()[t],
                ) by {
                    if t < out0.len() {
                        assert(av.take(i as int).contains(out0[t]));
                        let w = choose|w: int| 0 <= w < i && av.take(i as int)[w] == out0[t];
                        assert(av.take(i as int + 1)[w] == out0[t]);
                    } else {
                        assert(out.deep_view()[t] == av[i as int]);
                        assert(av.take(i as int + 1)[i as int] == av[i as int]);
                    }
                }
                assert forall|x: Seq<char>|
                    av.take(i as int + 1).contains(x) && !self.deps().dom().contains(
                        x,
                    ) implies out.deep_view().contains(x) by {
                    let w = choose|w: int|
                        0 <= w < i + 1 && (#[trigger] av.take(i as int + 1)[w]) == x;
                    if w < i {
                        assert(av.take(i as int)[w] == x);
                        assert(av.take(i as int).contains(x));
                        assert(out0.contains(x));
                        let u = choose|u: int| 0 <= u < out0.len() && (#[trigger] out0[u]) == x;
                        assert(out.deep_view()[u] == x);
                        assert(out.deep_view().contains(x));
                    } else {
                        assert(x == av[i as int]);
                        if already_tracked {
                            assert(false);
                        } else if dup {
                            assert(out0.contains(x));
                            let u = choose|u: int|
                                0 <= u < out0.len() && (#[trigger] out0[u]) == x;
                            assert(out.deep_view()[u] == x);
                            assert(out.deep_view().contains(x));
                        } else {
                            assert(out.deep_view().last() == x);
                            assert(out.deep_view().contains(x));
                        }
                    }
                }
            }
            i += 1;
        }
        proof {
            assert(av.take(n as int) =~= av);
            assert(out.deep_view().to_set() =~= self.deps().dom().difference(
                removed.deep_view().to_set(),
            ).union(av.to_set()).difference(self.deps().dom()));
        }
        out
    }

    /// The dependency map a refresh installs, entry by entry in order.
    pub open spec fn deps_map_of(s: Seq<(String, Vec<String>)>) -> Map<Seq<char>, Set<Seq<char>>>
        decreases s.len(),
    {
        if s.len() == 0 {
            Map::empty()
        } else {
            Self::deps_map_of(s.drop_last()).insert(
                s.last().0@,
                s.last().1.deep_view().to_set(),
            )
        }
    }

    /// A table map extended additively, pair by pair in order.
    pub open spec fn extend_tables(
        m: Map<Seq<char>, SymbolTable>,
        s: Seq<(String, SymbolTable)>,
    ) -> Map<Seq<char>, SymbolTable>
        decreases s.len(),
    {
        if s.len() == 0 {
            m
        } else {
            Self::extend_tables(m, s.drop_last()).insert(s.last().0@, s.last().1)
        }
    }

    /// Install a fresh scan: replace the dependency store wholesale — clear,
    /// then reinsert, so directories the scan did not cover drop out — and
    /// merge the newly extracted symbol tables additively; files already
    /// cached elsewhere stay untouched.
    pub fn apply_refresh(
        &mut self,
        entries: Vec<(String, Vec<String>)>,
        tables: Vec<(String, SymbolTable)>,
    )
        ensures
            final(self).texts() == old(self).texts(),
            final(self).trees() == old(self).trees(),
            final(self).roots() == old(self).roots(),
            final(self).deps() == Self::deps_map_of(entries@),
            final(self).tables() == Self::extend_tables(old(self).tables(), tables@),
            old(self).wf() ==> final(self).wf(),
    {
        proof {
            assert(old(self).wf() ==> self.wf());
        }
        cfg_store_clear(&mut self.cfg_map);
        let ghost all_entries = entries@;
        let n: usize = entries.len();
        let mut entries = entries;
        let mut i: usize = 0;
        proof {
            assert(Self::deps_map_of(all_entries.take(0)) =~= empty_cfg_contents());
        }
        while i < n
            invariant
                n == all_entries.len(),
                i <= n,
                entries@ == all_entries.skip(i as int),
                self.deps() == Self::deps_map_of(all_entries.take(i as int)),
                self.texts() == old(self).texts(),
                self.trees() == old(self).trees(),
                self.tables() == old(self).tables(),
                self.roots() == old(self).roots(),
            decreases n - i,
        {
            proof {
                assert(all_entries.take(i as int + 1).drop_last() =~= all_entries.take(i as int));
                assert(all_entries.take(i as int + 1).last() == all_entries[i as int]);
                assert(entries@[0] == all_entries[i as int]);
            }
            let (dir, paths) = entries.remove(0);
            cfg_store_insert(&mut self.cfg_map, dir, paths);
            proof {
                assert(entries@ =~= all_entries.skip(i as int + 1));
            }
            i += 1;
        }
        proof {
            assert(all_entries.take(n as int) =~= all_entries);
        }
        let ghost all_tables = tables@;
        let m: usize = tables.len();
        let mut tables = tables;
        let mut j: usize = 0;
        while j < m
            invariant
                m == all_tables.len(),
                j <= m,
                tables@ == all_tables.skip(j as int),
                self.tables() == Self::extend_tables(old(self).tables(), all_tables.take(j as int)),
                self.texts() == old(self).texts(),
                self.trees() == old(self).trees(),
                self.deps() == Self::deps_map_of(all_entries),
                self.roots() == old(self).roots(),
            decreases m - j,
        {
            proof {
                assert(all_tables.take(j as int + 1).drop_last() =~= all_tables.take(j as int));
                assert(all_tables.take(j as int + 1).last() == all_tables[j as int]);
                assert(tables@[0] == all_tables[j as int]);
            }
            let (path, table) = tables.remove(0);
            sym_store_insert(&mut self.symbol_map, path, table);
            proof {
                assert(tables@ =~= all_tables.skip(j as int + 1));
            }
            j += 1;
        }
        proof {
            assert(all_tables.take(m as int) =~= all_tables);
        }
    }

    /// The paths any of the fresh entries reference.
    pub open spec fn entries_paths(s: Seq<(String, Vec<String>)>) -> Set<Seq<char>>
        decreases s.len(),
    {
        if s.len() == 0 {
            Set::empty()
        } else {
            Self::entries_paths(s.drop_last()).union(s.last().1.deep_view().to_set())
        }
    }

    /// The referenced files that have no cached symbol table yet: what a
    /// refresh still has to read and extract.
    pub fn uncached_files(&self, entries: &Vec<(String, Vec<String>)>) -> (r: Vec<String>)
        ensures
            r.deep_view().to_set() == Self::entries_paths(entries@).difference(
                self.tables().dom(),
            ),
            forall|i: int, j: int|
                0 <= i < j < r.deep_view().len() ==> r.deep_view()[i] != r.deep_view()[j],
    {
        let n: usize = entries.len();
        let mut out: Vec<String> = Vec::new();
        let mut i: usize = 0;
        proof {
            assert(out.deep_view().to_set() =~= Self::entries_paths(entries@.take(0)).difference(
                self.tables().dom(),
            ));
        }
        while i < n
            invariant
                n == entries@.len(),
                i <= n,
                forall|p: int, q: int|
                    0 <= p < q < out.deep_view().len() ==> out.deep_view()[p]
                        != out.deep_view()[q],
                out.deep_view().to_set() == Self::entries_paths(entries@.take(i as int)).difference(
                    self.tables().dom(),
                ),
            decreases n - i,
        {
            let paths = &entries[i].1;
            let ghost pv = paths.deep_view();
            let k: usize = paths.len();
            let mut j: usize = 0;
            proof {
                assert(pv.take(0).to_set() =~= Set::<Seq<char>>::empty());
                assert(out.deep_view().to_set() =~= Self::entries_paths(
                    entries@.take(i as int),
                ).union(pv.take(0).to_set()).difference(self.tables().dom()));
            }
            while j < k
                invariant
                    n == entries@.len(),
                    i < n,
                    pv == entries@[i as int].1.deep_view(),
                    pv.len() == k,
                    j <= k,
                    forall|p: int, q: int|
                        0 <= p < q < out.deep_view().len() ==> out.deep_view()[p]
                            != out.deep_view()[q],
                    out.deep_view().to_set() == Self::entries_paths(
                        entries@.take(i as int),
                    ).union(pv.take(j as int).to_set()).difference(self.tables().dom()),
                decreases k - j,
            {
                let p = &entries[i].1[j];
                let ghost out0 = out.deep_view();
                let cached = sym_store_contains(&self.symbol_map, p.as_str());
                let dup = cfg::vec_contains_str(&out, p.as_str());
                if !cached && !dup {
                    out.push(p.clone());
                }
                proof {
                    assert(p@ == pv[j as int]);
                    cfg::lemma_take_succ_to_set(pv, j as int);
                    if !cached && !dup {
                        assert(out.deep_view() =~= out0.push(pv[j as int]));
                        cfg::lemma_push_to_set(out0, pv[j as int]);
                        assert forall|x: int, y: int|
                            0 <= x < y < out.deep_view().len() implies out.deep_view()[x]
                            != out.deep_view()[y] by {
                            if y == out0.len() {
                                assert(out.deep_view()[x] == out0[x]);
                                assert(!out0.to_set().contains(pv[j as int]));
                                assert(out0.contains(out0[x]));
                            }
                        }
                    } else {
                        assert(out.deep_view() =~= out0);
                        if dup {
                            assert(out0.to_set().contains(pv[j as int]));
                        }
                    }
                    assert(out.deep_view().to_set() =~= Self::entries_paths(
                        entries@.take(i as int),
                    ).union(pv.take(j as int + 1).to_set()).difference(self.tables().dom()));
                }
                j += 1;
            }
            proof {
                assert(pv.take(k as int) =~= pv);
                assert(entries@.take(i as int + 1).drop_last() =~= entries@.take(i as int));
                assert(entries@.take(i as int + 1).last() == entries@[i as int]);
                assert(out.deep_view().to_set() =~= Self::entries_paths(
                    entries@.take(i as int + 1),
                ).difference(self.tables().dom()));
            }
            i += 1;
        }
        proof {
            assert(entries@.take(n as int) =~= entries@);
        }
        out
    }

    /// The files that share a config with `path`: everything declared by any
    /// dependency entry whose set contains `path`.
    pub open spec fn dep_set(deps: Map<Seq<char>, Set<Seq<char>>>, path: Seq<char>) -> Set<
        Seq<char>,
    > {
        Set::new(
            |x: Seq<char>|
                exists|d: Seq<char>|
                    #[trigger] deps.dom().contains(d) && deps[d].contains(path) && deps[d].contains(
                        x,
                    ),
        )
    }

    /// The union of the matching entries among the first `n`.
    spec fn dep_union_upto(es: Seq<(String, Vec<String>)>, path: Seq<char>, n: int) -> Set<
        Seq<char>,
    >
        decreases n,
    {
        if n <= 0 {
            Set::empty()
        } else {
            Self::dep_union_upto(es, path, n - 1).union(
                if es[n - 1].1.deep_view().contains(path) {
                    es[n - 1].1.deep_view().to_set()
                } else {
                    Set::empty()
                },
            )
        }
    }

    /// What the prefix union holds, entry by entry.
    proof fn lemma_dep_union_upto_in(
        es: Seq<(String, Vec<String>)>,
        path: Seq<char>,
        n: int,
        x: Seq<char>,
    )
        ensures
            Self::dep_union_upto(es, path, n).contains(x) <==> exists|i: int|
                0 <= i < n && (#[trigger] es[i].1.deep_view()).contains(path)
                    && es[i].1.deep_view().contains(x),
        decreases n,
    {
        if n > 0 {
            Self::lemma_dep_union_upto_in(es, path, n - 1, x);
            if Self::dep_union_upto(es, path, n).contains(x) {
                if !Self::dep_union_upto(es, path, n - 1).contains(x) {
                    assert(es[n - 1].1.deep_view().contains(path) && es[n - 1].1.deep_view().contains(x));
                }
            }
            if exists|i: int|
                0 <= i < n && (#[trigger] es[i].1.deep_view()).contains(path)
                    && es[i].1.deep_view().contains(x) {
                let i = choose|i: int|
                    0 <= i < n && (#[trigger] es[i].1.deep_view()).contains(path)
                        && es[i].1.deep_view().contains(x);
                if i < n - 1 {
                    assert(Self::dep_union_upto(es, path, n - 1).contains(x));
                }
            }
        }
    }

    /// The files that share a config with `file_path`, each once.
    pub fn get_dependencies(&self, file_path: &str) -> (r: Vec<String>)
        ensures
            r.deep_view().to_set() == Self::dep_set(self.deps(), file_path@),
            forall|i: int, j: int|
                0 <= i < j < r.deep_view().len() ==> r.deep_view()[i] != r.deep_view()[j],
    {
        let entries = cfg_store_entries(&self.cfg_map);
        let ghost es = entries@;
        let n: usize = entries.len();
        let mut out: Vec<String> = Vec::new();
        let mut i: usize = 0;
        while i < n
            invariant
                es == entries@,
                n == es.len(),
                i <= n,
                forall|t: int|
                    0 <= t < es.len() ==> #[trigger] cfg_contents(self.cfg_map).contains_pair(
                        es[t].0@,
                        es[t].1.deep_view().to_set(),
                    ),
                forall|p: int, q: int|
                    0 <= p < q < out.deep_view().len() ==> out.deep_view()[p]
                        != out.deep_view()[q],
                out.deep_view().to_set() == Self::dep_union_upto(es, file_path@, i as int),
            decreases n - i,
        {
            let member = cfg::vec_contains_str(&entries[i].1, file_path);
            if member {
                let ghost pv = es[i as int].1.deep_view();
                let k: usize = entries[i].1.len();
                let mut j: usize = 0;
                proof {
                    assert(pv.take(0).to_set() =~= Set::<Seq<char>>::empty());
                    assert(out.deep_view().to_set() =~= Self::dep_union_upto(
                        es,
                        file_path@,
                        i as int,
                    ).union(pv.take(0).to_set()));
                }
                while j < k
                    invariant
                        es == entries@,
                        n == es.len(),
                        i < n,
                        pv == es[i as int].1.deep_view(),
                        pv.len() == k,
                        j <= k,
                        forall|p: int, q: int|
                            0 <= p < q < out.deep_view().len() ==> out.deep_view()[p]
                                != out.deep_view()[q],
                        out.deep_view().to_set() == Self::dep_union_upto(
                            es,
                            file_path@,
                            i as int,
                        ).union(pv.take(j as int).to_set()),
                    decreases k - j,
                {
                    let p = &entries[i].1[j];
                    let ghost out0 = out.deep_view();
                    let dup = cfg::vec_contains_str(&out, p.as_str());
                    if !dup {
                        out.push(p.clone());
                    }
                    proof {
                        assert(p@ == pv[j as int]);
                        cfg::lemma_take_succ_to_set(pv, j as int);
                        if !dup {
                            assert(out.deep_view() =~= out0.push(pv[j as int]));
                            cfg::lemma_push_to_set(out0, pv[j as int]);
                            assert forall|x: int, y: int|
                                0 <= x < y < out.deep_view().len() implies out.deep_view()[x]
                                != out.deep_view()[y] by {
                                if y == out0.len() {
                                    assert(out.deep_view()[x] == out0[x]);
                                    assert(!out0.to_set().contains(pv[j as int]));
                                    assert(out0.contains(out0[x]));
                                }
                            }
                        } else {
                            assert(out.deep_view() =~= out0);
                            assert(out0.contains(pv[j as int]));
                        }
                        assert(out.deep_view().to_set() =~= Self::dep_union_upto(
                            es,
                            file_path@,
                            i as int,
                        ).union(pv.take(j as int + 1).to_set()));
                    }
                    j += 1;
                }
                proof {
                    assert(pv.take(k as int) =~= pv);
                    assert(pv.contains(file_path@));
                    assert(out.deep_view().to_set() =~= Self::dep_union_upto(
                        es,
                        file_path@,
                        i as int + 1,
                    ));
                }
            } else {
                proof {
                    assert(!es[i as int].1.deep_view().contains(file_path@));
                    assert(out.deep_view().to_set() =~= Self::dep_union_upto(
                        es,
                        file_path@,
                        i as int + 1,
                    ));
                }
            }
            i += 1;
        }
        proof {
            assert forall|x: Seq<char>|
                Self::dep_union_upto(es, file_path@, n as int).contains(x)
                    == Self::dep_set(self.deps(), file_path@).contains(x) by {
                Self::lemma_dep_union_upto_in(es, file_path@, n as int, x);
                if Self::dep_union_upto(es, file_path@, n as int).contains(x) {
                    let i = choose|i: int|
                        0 <= i < n && (#[trigger] es[i].1.deep_view()).contains(file_path@)
                            && es[i].1.deep_view().contains(x);
                    assert(self.deps().contains_pair(es[i].0@, es[i].1.deep_view().to_set()));
                    assert(self.deps().dom().contains(es[i].0@) && self.deps()[es[i].0@].contains(
                        file_path@,
                    ) && self.deps()[es[i].0@].contains(x));
                }
                if Self::dep_set(self.deps(), file_path@).contains(x) {
                    let d = choose|d: Seq<char>|
                        #[trigger] self.deps().dom().contains(d) && self.deps()[d].contains(
                            file_path@,
                        ) && self.deps()[d].contains(x);
                    let i = choose|i: int| 0 <= i < es.len() && (#[trigger] es[i].0@) == d;
                    assert(self.deps().contains_pair(es[i].0@, es[i].1.deep_view().to_set()));
                    assert(es[i].1.deep_view().to_set() == self.deps()[d]);
                    assert(es[i].1.deep_view().contains(file_path@));
                    assert(es[i].1.deep_view().contains(x));
                }
            }
            assert(Self::dep_union_upto(es, file_path@, n as int) =~= Self::dep_set(
                self.deps(),
                file_path@,
            ));
        }
        out
    }

    /// The identifier node under the cursor in an indexed file, if any.
    pub open spec fn cursor_target(self, path: Seq<char>, pos: Position) -> Option<int> {
        if self.trees().dom().contains(path) {
            match locate(self.trees()[path].nodes@, pos) {
                Some(i) => {
                    if self.trees()[path].nodes@[i].kind@ == "identifier"@ {
                        Some(i)
                    } else {
                        None
                    }
                },
                None => None,
            }
        } else {
            None
        }
    }

    /// The name the cursor stands on.
    pub open spec fn target_name(self, path: Seq<char>, pos: Position) -> Seq<char> {
        self.trees()[path].nodes@[self.cursor_target(path, pos)->Some_0].text@
    }

    /// How the identifier under the cursor is being used.
    pub open spec fn target_ctx(self, path: Seq<char>, pos: Position) -> RefContext {
        ref_context(self.trees()[path].nodes@, self.cursor_target(path, pos)->Some_0)
    }

    /// What the cached table of file `q` answers for the cursor's identifier.
    pub open spec fn table_resolution(
        self,
        path: Seq<char>,
        pos: Position,
        q: Seq<char>,
    ) -> Option<SymbolView> {
        if self.tables().dom().contains(q) {
            resolve_in_table(
                self.tables()[q]@,
                self.target_ctx(path, pos),
                self.target_name(path, pos),
            )
        } else {
            None
        }
    }

    /// A successful resolution: the cursor stands on an identifier; the
    /// file's own table answers when it can, else some other cached table.
    pub open spec fn resolution_of(
        self,
        path: Seq<char>,
        pos: Position,
        from: Seq<char>,
        s: SymbolView,
    ) -> bool {
        &&& self.cursor_target(path, pos) is Some
        &&& if self.table_resolution(path, pos, path) is Some {
            from == path && Some(s) == self.table_resolution(path, pos, path)
        } else {
            &&& from != path
            &&& Some(s) == self.table_resolution(path, pos, from)
        }
    }

    /// No resolution anywhere: no identifier under the cursor, or no cached
    /// table that answers for it.
    pub open spec fn no_resolution(self, path: Seq<char>, pos: Position) -> bool {
        ||| self.cursor_target(path, pos) is None
        ||| forall|q: Seq<char>| #[trigger] self.table_resolution(path, pos, q) is None
    }

    /// The symbol under the cursor: nothing when the file is not indexed or
    /// the cursor is not over an identifier; else the defining file and its
    /// symbol — from the file's own table first, else from some other cached
    /// table, in no promised order among equally named definitions.
    pub fn find_symbol(&self, file_path: &str, position: Position) -> (r: Option<(String, Symbol)>)
        requires
            self.wf(),
        ensures
            match r {
                Some(pair) => self.resolution_of(file_path@, position, pair.0@, pair.1@),
                None => self.no_resolution(file_path@, position),
            },
    {
        let tree = match tree_store_get(&self.tree_map, file_path) {
            Some(tree) => tree,
            None => {
                return None;
            },
        };
        let node = match crate::tree::find_node_at(&tree, position) {
            Some(node) => node,
            None => {
                return None;
            },
        };
        if !text::str_eq(tree.nodes[node].kind.as_str(), "identifier") {
            return None;
        }
        let name = tree.nodes[node].text.clone();
        match sym_store_get(&self.symbol_map, file_path) {
            Some(own) => {
                match own.find_symbol(&tree, node, name.as_str()) {
                    Some(sym) => {
                        return Some((file_path.to_owned(), sym));
                    },
                    None => {},
                }
            },
            None => {},
        }
        let entries = sym_store_entries(&self.symbol_map);
        let ghost es = entries@;
        let n: usize = entries.len();
        let mut i: usize = 0;
        while i < n
            invariant
                es == entries@,
                n == es.len(),
                i <= n,
                self.wf(),
                self.cursor_target(file_path@, position) == Some(node as int),
                self.trees().dom().contains(file_path@),
                self.trees()[file_path@] == tree,
                node < tree.nodes@.len(),
                name@ == self.target_name(file_path@, position),
                self.table_resolution(file_path@, position, file_path@) is None,
                forall|t: int|
                    0 <= t < es.len() ==> #[trigger] sym_contents(self.symbol_map).contains_pair(
                        es[t].0@,
                        es[t].1,
                    ),
                forall|k: Seq<char>|
                    #[trigger] sym_contents(self.symbol_map).dom().contains(k) ==> exists|t: int|
                        0 <= t < es.len() && es[t].0@ == k,
                forall|t: int|
                    0 <= t < i ==> #[trigger] self.table_resolution(
                        file_path@,
                        position,
                        es[t].0@,
                    ) is None,
            decreases n - i,
        {
            let is_own = text::str_eq(entries[i].0.as_str(), file_path);
            if !is_own {
                match entries[i].1.find_symbol(&tree, node, name.as_str()) {
                    Some(sym) => {
                        proof {
                            assert(self.tables().contains_pair(es[i as int].0@, es[i as int].1));
                        }
                        return Some((entries[i].0.clone(), sym));
                    },
                    None => {
                        proof {
                            assert(self.tables().contains_pair(es[i as int].0@, es[i as int].1));
                        }
                    },
                }
            }
            i += 1;
        }
        proof {
            assert forall|q: Seq<char>| #[trigger] self.table_resolution(
                file_path@,
                position,
                q,
            ) is None by {
                if self.tables().dom().contains(q) {
                    let t = choose|t: int| 0 <= t < es.len() && (#[trigger] es[t].0@) == q;
                    assert(self.tables().contains_pair(es[t].0@, es[t].1));
                    if q != file_path@ {
                        assert(self.table_resolution(file_path@, position, es[t].0@) is None);
                    }
                }
            }
        }
        None
    }

    /// Whether `root` contains `p`: a proper prefix ending at a separator.
    pub open spec fn strips(root: Seq<char>, p: Seq<char>) -> bool {
        &&& root.len() > 0
        &&& p.len() > root.len()
        &&& p.take(root.len() as int) == root
        &&& (root.last() == '/' || p[root.len() as int] == '/')
    }

    /// `p` with a containing root taken off.
    pub open spec fn strip_result(root: Seq<char>, p: Seq<char>) -> Seq<char> {
        if root.last() == '/' {
            p.skip(root.len() as int)
        } else {
            p.skip(root.len() as int + 1)
        }
    }

    /// The display form of a defining path: the path relative to the longest
    /// workspace root containing it, or absolute when none does.
    pub open spec fn display_path(roots: Set<Seq<char>>, p: Seq<char>) -> Seq<char> {
        if exists|d: Seq<char>| #[trigger] roots.contains(d) && Self::strips(d, p) {
            let best = choose|d: Seq<char>|
                #[trigger] roots.contains(d) && Self::strips(d, p) && forall|e: Seq<char>|
                    roots.contains(e) && Self::strips(e, p) ==> e.len() <= d.len();
            Self::strip_result(best, p)
        } else {
            p
        }
    }

    /// A query on a never-indexed file resolves to nothing: the index
    /// answers "no result" — and, being total, never an error.
    pub proof fn lemma_unindexed_query_is_no_result(b: Backend, path: Seq<char>, pos: Position)
        requires
            !b.trees().dom().contains(path),
        ensures
            b.no_resolution(path, pos),
            b.cursor_target(path, pos) is None,
    {
    }

    /// Whether `root` contains `path`, executably.
    fn strips_exec(root: &str, path: &str) -> (r: bool)
        ensures
            r == Self::strips(root@, path@),
    {
        let rl: usize = root.unicode_len();
        let pl: usize = path.unicode_len();
        if rl == 0 || pl <= rl {
            return false;
        }
        if !text::starts_with_chars(path, root) {
            return false;
        }
        root.get_char(rl - 1) == '/' || path.get_char(rl) == '/'
    }

    /// The path shortened by the longest containing workspace root.
    fn shorten_path(&self, path: &str) -> (r: String)
        ensures
            r@ == Self::display_path(self.roots(), path@),
    {
        let roots = ws_store_entries(&self.workspace_dirs);
        let ghost rv = roots.deep_view();
        let n: usize = roots.len();
        let mut best: Option<usize> = None;
        let mut i: usize = 0;
        while i < n
            invariant
                rv == roots.deep_view(),
                n == rv.len(),
                i <= n,
                forall|t: int| 0 <= t < rv.len() ==> self.roots().contains(#[trigger] rv[t]),
                match best {
                    Some(b) => {
                        &&& b < n
                        &&& Self::strips(rv[b as int], path@)
                        &&& forall|t: int|
                            0 <= t < i && Self::strips(#[trigger] rv[t], path@) ==> rv[t].len()
                                <= rv[b as int].len()
                    },
                    None => forall|t: int| 0 <= t < i ==> !Self::strips(#[trigger] rv[t], path@),
                },
            decreases n - i,
        {
            if Self::strips_exec(roots[i].as_str(), path) {
                let take_it = match best {
                    Some(b) => roots[b].unicode_len() < roots[i].unicode_len(),
                    None => true,
                };
                if take_it {
                    best = Some(i);
                }
            }
            i += 1;
        }
        match best {
            Some(b) => {
                let ghost db = rv[b as int];
                proof {
                    assert forall|e: Seq<char>|
                        self.roots().contains(e) && Self::strips(e, path@) implies e.len()
                        <= db.len() by {
                        let t = choose|t: int| 0 <= t < roots@.len() && (#[trigger] roots@[t])@
                            == e;
                        assert(rv[t] == roots@[t]@);
                        assert(rv[t] == e);
                    }
                    let sb = choose|d: Seq<char>|
                        #[trigger] self.roots().contains(d) && Self::strips(d, path@) && forall|
                            e: Seq<char>,
                        |
                            self.roots().contains(e) && Self::strips(e, path@) ==> e.len()
                                <= d.len();
                    assert(sb.len() == db.len());
                    assert(path@.take(sb.len() as int) == sb);
                    assert(path@.take(db.len() as int) == db);
                    assert(sb == db);
                }
                let rl: usize = roots[b].unicode_len();
                let pl: usize = path.unicode_len();
                if roots[b].as_str().get_char(rl - 1) == '/' {
                    let r = path.substring_char(rl, pl);
                    proof {
                        assert(r@ =~= path@.skip(rl as int));
                    }
                    r.to_owned()
                } else {
                    let r = path.substring_char(rl + 1, pl);
                    proof {
                        assert(r@ =~= path@.skip(rl as int + 1));
                    }
                    r.to_owned()
                }
            },
            None => {
                proof {
                    if exists|d: Seq<char>|
                        #[trigger] self.roots().contains(d) && Self::strips(d, path@) {
                        let d = choose|d: Seq<char>|
                            #[trigger] self.roots().contains(d) && Self::strips(d, path@);
                        let t = choose|t: int| 0 <= t < roots@.len() && (#[trigger] roots@[t])@
                            == d;
                        assert(rv[t] == roots@[t]@);
                        assert(rv[t] == d);
                        assert(false);
                    }
                }
                path.to_owned()
            },
        }
    }

    /// The hover answer: the symbol's rendered description, beside the
    /// defining file's path shortened by the longest workspace root that
    /// contains it.
    pub fn hover(&self, file_path: &str, position: Position) -> (r: Option<(String, String)>)
        requires
            self.wf(),
        ensures
            match r {
                Some(pair) => exists|from: Seq<char>, s: SymbolView|
                    self.resolution_of(file_path@, position, from, s) && pair.0@
                        == s.spec_description() && pair.1@ == Self::display_path(
                        self.roots(),
                        from,
                    ),
                None => self.no_resolution(file_path@, position),
            },
    {
        match self.find_symbol(file_path, position) {
            Some((from, sym)) => {
                let disp = self.shorten_path(from.as_str());
                let desc = sym.description().to_owned();
                proof {
                    assert(self.resolution_of(file_path@, position, from@, sym@));
                }
                Some((desc, disp))
            },
            None => None,
        }
    }

    /// The answer to a go-to-definition request: the defining file and the
    /// definition's span; nothing — never an error — for a file or position
    /// that was never indexed.
    pub fn goto_definition(&self, file_path: &str, position: Position) -> (r: Option<
        (String, SrcRange),
    >)
        requires
            self.wf(),
        ensures
            match r {
                Some(pair) => exists|s: SymbolView|
                    self.resolution_of(file_path@, position, pair.0@, s) && pair.1
                        == s.spec_range(),
                None => self.no_resolution(file_path@, position),
            },
    {
        match self.find_symbol(file_path, position) {
            Some((from, sym)) => {
                let range = sym.range();
                Some((from, range))
            },
            None => None,
        }
    }

    /// Whether a candidate names a symbol of some file sharing a config with
    /// `path`, carrying that symbol's rendered description.
    pub open spec fn candidate_valid(
        self,
        path: Seq<char>,
        name: Seq<char>,
        kind: CompletionKind,
        doc: Seq<char>,
    ) -> bool {
        exists|d: Seq<char>|
            #[trigger] Self::dep_set(self.deps(), path).contains(d) && self.tables().dom().contains(
                d,
            ) && match kind {
                CompletionKind::Function => self.tables()[d]@.functions.dom().contains(name) && doc
                    == self.tables()[d]@.functions[name].description,
                CompletionKind::Variable => self.tables()[d]@.global_variables.dom().contains(name)
                    && doc == self.tables()[d]@.global_variables[name].description,
            }
    }

    /// The completion candidates for a file: one per function and one per
    /// module-scope variable of every file sharing a config with it, each
    /// carrying the symbol's rendered description as its documentation.
    pub fn completion(&self, file_path: &str) -> (r: Vec<CompletionItem>)
        ensures
            forall|t: int|
                0 <= t < r@.len() ==> self.candidate_valid(
                    file_path@,
                    (#[trigger] r@[t]).name@,
                    r@[t].kind,
                    r@[t].documentation@,
                ),
            forall|d: Seq<char>, nm: Seq<char>|
                Self::dep_set(self.deps(), file_path@).contains(d) && self.tables().dom().contains(
                    d,
                ) && #[trigger] self.tables()[d]@.functions.dom().contains(nm) ==> exists|t: int|
                    0 <= t < r@.len() && (#[trigger] r@[t]).name@ == nm && r@[t].kind
                        == CompletionKind::Function && r@[t].documentation@
                        == self.tables()[d]@.functions[nm].description,
            forall|d: Seq<char>, nm: Seq<char>|
                Self::dep_set(self.deps(), file_path@).contains(d) && self.tables().dom().contains(
                    d,
                ) && #[trigger] self.tables()[d]@.global_variables.dom().contains(nm) ==> exists|
                    t: int,
                |
                    0 <= t < r@.len() && (#[trigger] r@[t]).name@ == nm && r@[t].kind
                        == CompletionKind::Variable && r@[t].documentation@
                        == self.tables()[d]@.global_variables[nm].description,
    {
        let deps = self.get_dependencies(file_path);
        let ghost dv = deps.deep_view();
        let n: usize = deps.len();
        let mut out: Vec<CompletionItem> = Vec::new();
        let mut i: usize = 0;
        while i < n
            invariant
                dv == deps.deep_view(),
                n == dv.len(),
                i <= n,
                dv.to_set() == Self::dep_set(self.deps(), file_path@),
                forall|t: int|
                    0 <= t < out@.len() ==> self.candidate_valid(
                        file_path@,
                        (#[trigger] out@[t]).name@,
                        out@[t].kind,
                        out@[t].documentation@,
                    ),
                forall|d: Seq<char>, nm: Seq<char>|
                    dv.take(i as int).contains(d) && self.tables().dom().contains(d) && #[trigger] self.tables()[d]@.functions.dom().contains(nm) ==> exists|t: int|
                        0 <= t < out@.len() && (#[trigger] out@[t]).name@ == nm && out@[t].kind
                            == CompletionKind::Function && out@[t].documentation@
                            == self.tables()[d]@.functions[nm].description,
                forall|d: Seq<char>, nm: Seq<char>|
                    dv.take(i as int).contains(d) && self.tables().dom().contains(d) && #[trigger] self.tables()[d]@.global_variables.dom().contains(nm) ==> exists|
                        t: int,
                    |
                        0 <= t < out@.len() && (#[trigger] out@[t]).name@ == nm && out@[t].kind
                            == CompletionKind::Variable && out@[t].documentation@
                            == self.tables()[d]@.global_variables[nm].description,
            decreases n - i,
        {
            let ghost d = dv[i as int];
            let ghost out_pre = out@;
            proof {
                assert(deps@[i as int]@ == d);
                assert(dv.contains(d));
            }
            match sym_store_get(&self.symbol_map, deps[i].as_str()) {
                Some(table) => {
                    proof {
                        assert(self.tables().dom().contains(d));
                        assert(self.tables()[d] == table);
                    }
                    self.push_table_candidates(file_path, &table, &mut out, Ghost(d));
                },
                None => {},
            }
            proof {
                cfg::lemma_take_succ_to_set(dv, i as int);
                assert forall|dd: Seq<char>, nm: Seq<char>|
                    dv.take(i as int + 1).contains(dd) && self.tables().dom().contains(dd) && #[trigger] self.tables()[dd]@.functions.dom().contains(nm) implies exists|
                    t: int,
                |
                    0 <= t < out@.len() && (#[trigger] out@[t]).name@ == nm && out@[t].kind
                        == CompletionKind::Function && out@[t].documentation@
                        == self.tables()[dd]@.functions[nm].description by {
                    assert(dv.take(i as int + 1).to_set().contains(dd));
                    if dv.take(i as int).contains(dd) {
                        let t = choose|t: int|
                            0 <= t < out_pre.len() && (#[trigger] out_pre[t]).name@ == nm
                                && out_pre[t].kind == CompletionKind::Function
                                && out_pre[t].documentation@
                                == self.tables()[dd]@.functions[nm].description;
                        assert(out@[t] == out_pre[t]);
                    } else {
                        assert(dd == d);
                    }
                }
                assert forall|dd: Seq<char>, nm: Seq<char>|
                    dv.take(i as int + 1).contains(dd) && self.tables().dom().contains(dd) && #[trigger] self.tables()[dd]@.global_variables.dom().contains(nm) implies exists|
                    t: int,
                |
                    0 <= t < out@.len() && (#[trigger] out@[t]).name@ == nm && out@[t].kind
                        == CompletionKind::Variable && out@[t].documentation@
                        == self.tables()[dd]@.global_variables[nm].description by {
                    assert(dv.take(i as int + 1).to_set().contains(dd));
                    if dv.take(i as int).contains(dd) {
                        let t = choose|t: int|
                            0 <= t < out_pre.len() && (#[trigger] out_pre[t]).name@ == nm
                                && out_pre[t].kind == CompletionKind::Variable
                                && out_pre[t].documentation@
                                == self.tables()[dd]@.global_variables[nm].description;
                        assert(out@[t] == out_pre[t]);
                    } else {
                        assert(dd == d);
                    }
                }
            }
            i += 1;
        }
        proof {
            assert(dv.take(n as int) =~= dv);
        }
        out
    }

    /// Add one candidate per symbol of one dependency file's table.
    fn push_table_candidates(
        &self,
        file_path: &str,
        table: &SymbolTable,
        out: &mut Vec<CompletionItem>,
        from: Ghost<Seq<char>>,
    )
        requires
            Self::dep_set(self.deps(), file_path@).contains(from@),
            self.tables().dom().contains(from@),
            self.tables()[from@] == *table,
        ensures
            final(out)@.len() >= old(out)@.len(),
            forall|t: int| 0 <= t < old(out)@.len() ==> final(out)@[t] == old(out)@[t],
            forall|t: int|
                0 <= t < final(out)@.len() ==> (0 <= t < old(out)@.len()
                    || self.candidate_valid(
                    file_path@,
                    (#[trigger] final(out)@[t]).name@,
                    final(out)@[t].kind,
                    final(out)@[t].documentation@,
                )),
            forall|nm: Seq<char>|
                (#[trigger] self.tables()[from@]@.functions.dom().contains(nm)) ==> exists|t: int|
                    0 <= t < final(out)@.len() && (#[trigger] final(out)@[t]).name@ == nm
                        && final(out)@[t].kind == CompletionKind::Function
                        && final(out)@[t].documentation@
                        == self.tables()[from@]@.functions[nm].description,
            forall|nm: Seq<char>|
                (#[trigger] self.tables()[from@]@.global_variables.dom().contains(nm)) ==> exists|
                    t: int,
                |
                    0 <= t < final(out)@.len() && (#[trigger] final(out)@[t]).name@ == nm
                        && final(out)@[t].kind == CompletionKind::Variable
                        && final(out)@[t].documentation@
                        == self.tables()[from@]@.global_variables[nm].description,
    {
        let vars = table.global_variables.entries();
        let k: usize = vars.len();
        let mut j: usize = 0;
        while j < k
            invariant
                k == vars@.len(),
                j <= k,
                self.tables().dom().contains(from@),
                self.tables()[from@] == *table,
                Self::dep_set(self.deps(), file_path@).contains(from@),
                forall|w: int|
                    0 <= w < vars@.len() ==> #[trigger] table.global_variables@.contains_pair(
                        vars@[w].0@,
                        vars@[w].1,
                    ),
                out@.len() >= old(out)@.len(),
                forall|t: int| 0 <= t < old(out)@.len() ==> out@[t] == old(out)@[t],
                forall|t: int|
                    0 <= t < out@.len() ==> (0 <= t < old(out)@.len() || self.candidate_valid(
                        file_path@,
                        (#[trigger] out@[t]).name@,
                        out@[t].kind,
                        out@[t].documentation@,
                    )),
                forall|w: int|
                    0 <= w < j ==> exists|t: int|
                        0 <= t < out@.len() && (#[trigger] out@[t]).name@ == (
                        #[trigger] vars@[w]).0@ && out@[t].kind == CompletionKind::Variable
                            && out@[t].documentation@ == vars@[w].1@.description,
            decreases k - j,
        {
            let ghost out0 = out@;
            let item = CompletionItem {
                name: vars[j].0.clone(),
                kind: CompletionKind::Variable,
                documentation: vars[j].1.description.clone(),
            };
            out.push(item);
            proof {
                table.lemma_view_globals(vars@[j as int].0@);
                assert(out@.last().name@ == vars@[j as int].0@);
                assert(table.global_variables@.contains_pair(vars@[j as int].0@, vars@[
                    j as int].1));
                assert(table.global_variables@.dom().contains(vars@[j as int].0@));
                assert((*table)@.global_variables.dom().contains(vars@[j as int].0@));
                assert(self.tables()[from@] == *table);
                assert(self.tables()[from@]@.global_variables.dom().contains(vars@[j as int].0@));
                assert(self.tables()[from@]@.global_variables[vars@[j as int].0@] == vars@[j
                    as int].1@);
                assert(self.candidate_valid(
                    file_path@,
                    out@.last().name@,
                    out@.last().kind,
                    out@.last().documentation@,
                ));
                assert forall|w: int| 0 <= w < j + 1 implies exists|t: int|
                    0 <= t < out@.len() && (#[trigger] out@[t]).name@ == (#[trigger] vars@[w]).0@
                        && out@[t].kind == CompletionKind::Variable && out@[t].documentation@
                        == vars@[w].1@.description by {
                    if w < j {
                        let t = choose|t: int|
                            0 <= t < out0.len() && (#[trigger] out0[t]).name@ == vars@[w].0@
                                && out0[t].kind == CompletionKind::Variable && out0[t].documentation@
                                == vars@[w].1@.description;
                        assert(out@[t] == out0[t]);
                    } else {
                        assert(out@[out@.len() - 1].name@ == vars@[w].0@);
                    }
                }
            }
            j += 1;
        }
        let ghost out_mid = out@;
        let funs = table.functions.entries();
        let m: usize = funs.len();
        let mut h: usize = 0;
        while h < m
            invariant
                m == funs@.len(),
                h <= m,
                self.tables().dom().contains(from@),
                self.tables()[from@] == *table,
                Self::dep_set(self.deps(), file_path@).contains(from@),
                forall|w: int|
                    0 <= w < funs@.len() ==> #[trigger] table.functions@.contains_pair(
                        funs@[w].0@,
                        funs@[w].1,
                    ),
                forall|k2: Seq<char>|
                    table.functions@.dom().contains(k2) ==> exists|w: int|
                        0 <= w < funs@.len() && (#[trigger] funs@[w]).0@ == k2,
                out@.len() >= out_mid.len(),
                out_mid.len() >= old(out)@.len(),
                forall|t: int| 0 <= t < out_mid.len() ==> out@[t] == out_mid[t],
                forall|t: int| 0 <= t < old(out)@.len() ==> out_mid[t] == old(out)@[t],
                forall|t: int|
                    0 <= t < out@.len() ==> (0 <= t < old(out)@.len() || self.candidate_valid(
                        file_path@,
                        (#[trigger] out@[t]).name@,
                        out@[t].kind,
                        out@[t].documentation@,
                    )),
                forall|w: int|
                    0 <= w < vars@.len() ==> exists|t: int|
                        0 <= t < out@.len() && (#[trigger] out@[t]).name@ == (
                        #[trigger] vars@[w]).0@ && out@[t].kind == CompletionKind::Variable
                            && out@[t].documentation@ == vars@[w].1@.description,
                forall|w: int|
                    0 <= w < h ==> exists|t: int|
                        0 <= t < out@.len() && (#[trigger] out@[t]).name@ == (
                        #[trigger] funs@[w]).0@ && out@[t].kind == CompletionKind::Function
                            && out@[t].documentation@ == funs@[w].1@.description,
            decreases m - h,
        {
            let ghost out0 = out@;
            let item = CompletionItem {
                name: funs[h].0.clone(),
                kind: CompletionKind::Function,
                documentation: funs[h].1.description.clone(),
            };
            out.push(item);
            proof {
                table.lemma_view_functions(funs@[h as int].0@);
                assert(out@.last().name@ == funs@[h as int].0@);
                assert(table.functions@.contains_pair(funs@[h as int].0@, funs@[h as int].1));
                assert(table.functions@.dom().contains(funs@[h as int].0@));
                assert((*table)@.functions.dom().contains(funs@[h as int].0@));
                assert(self.tables()[from@] == *table);
                assert(self.tables()[from@]@.functions.dom().contains(funs@[h as int].0@));
                assert(self.tables()[from@]@.functions[funs@[h as int].0@] == funs@[h as int].1@);
                assert(self.candidate_valid(
                    file_path@,
                    out@.last().name@,
                    out@.last().kind,
                    out@.last().documentation@,
                ));
                assert forall|w: int| 0 <= w < vars@.len() implies exists|t: int|
                    0 <= t < out@.len() && (#[trigger] out@[t]).name@ == (#[trigger] vars@[w]).0@
                        && out@[t].kind == CompletionKind::Variable && out@[t].documentation@
                        == vars@[w].1@.description by {
                    let t = choose|t: int|
                        0 <= t < out0.len() && (#[trigger] out0[t]).name@ == vars@[w].0@ && out0[t].kind
                            == CompletionKind::Variable && out0[t].documentation@
                            == vars@[w].1@.description;
                    assert(out@[t] == out0[t]);
                }
                assert forall|w: int| 0 <= w < h + 1 implies exists|t: int|
                    0 <= t < out@.len() && (#[trigger] out@[t]).name@ == (#[trigger] funs@[w]).0@
                        && out@[t].kind == CompletionKind::Function && out@[t].documentation@
                        == funs@[w].1@.description by {
                    if w < h {
                        let t = choose|t: int|
                            0 <= t < out0.len() && (#[trigger] out0[t]).name@ == funs@[w].0@
                                && out0[t].kind == CompletionKind::Function && out0[t].documentation@
                                == funs@[w].1@.description;
                        assert(out@[t] == out0[t]);
                    } else {
                        assert(out@[out@.len() - 1].name@ == funs@[w].0@);
                    }
                }
            }
            h += 1;
        }
        proof {
            assert forall|nm: Seq<char>|
                (#[trigger] self.tables()[from@]@.functions.dom().contains(nm)) implies exists|
                t: int,
            |
                0 <= t < out@.len() && (#[trigger] out@[t]).name@ == nm && out@[t].kind
                    == CompletionKind::Function && out@[t].documentation@
                    == self.tables()[from@]@.functions[nm].description by {
                assert(self.tables()[from@] == *table);
                table.lemma_view_functions(nm);
                assert(table.functions@.dom().contains(nm));
                let w = choose|w: int| 0 <= w < funs@.len() && (#[trigger] funs@[w]).0@ == nm;
                assert(table.functions@.contains_pair(funs@[w].0@, funs@[w].1));
                assert(table.functions@[nm] == funs@[w].1);
                assert((*table)@.functions[nm] == funs@[w].1@);
                assert(funs@[w].1@ == self.tables()[from@]@.functions[nm]);
            }
            assert forall|nm: Seq<char>|
                (#[trigger] self.tables()[from@]@.global_variables.dom().contains(
                    nm,
                )) implies exists|t: int|
                0 <= t < out@.len() && (#[trigger] out@[t]).name@ == nm && out@[t].kind
                    == CompletionKind::Variable && out@[t].documentation@
                    == self.tables()[from@]@.global_variables[nm].description by {
                assert(self.tables()[from@] == *table);
                table.lemma_view_globals(nm);
                assert(table.global_variables@.dom().contains(nm));
                let w = choose|w: int|
                    0 <= w < vars@.len() && (#[trigger] vars@[w]).0@ == nm;
                assert(table.global_variables@.contains_pair(vars@[w].0@, vars@[w].1));
                assert(table.global_variables@[nm] == vars@[w].1);
                assert((*table)@.global_variables[nm] == vars@[w].1@);
                assert(vars@[w].1@ == self.tables()[from@]@.global_variables[nm]);
            }
        }
    }

    /// How one application of `update_file(path, text, parsed)` relates the
    /// index before it to the index after it.
    pub open spec fn update_relates(
        pre: Backend,
        post: Backend,
        path: Seq<char>,
        text: Seq<char>,
        parsed: Option<SyntaxTree>,
    ) -> bool {
        &&& post.texts() == pre.texts().insert(path, text)
        &&& post.deps() == pre.deps()
        &&& post.roots() == pre.roots()
        &&& if Self::parse_good(parsed) && extract_table(parsed->Some_0.nodes@) is Some {
            &&& post.trees() == pre.trees().insert(path, parsed->Some_0)
            &&& post.tables() == pre.tables().insert(path, post.tables()[path])
            &&& post.tables()[path]@ == extract_table(parsed->Some_0.nodes@)->Some_0
        } else {
            &&& post.trees() == pre.trees()
            &&& post.tables() == pre.tables()
        }
    }
}

} // verus!
