//! Symbol extraction: walking a parsed file in document order and collecting
//! its function and global-variable definitions, each with a rendered
//! description (leading comment block, then signature or declaration text).

use crate::names::NameMap;
use crate::text;
use crate::tree::{
    child_with_field, find_child_with_field, find_prev_sibling, prev_sibling, NodeData, SrcRange,
    SyntaxTree,
};
use vstd::prelude::*;
use vstd::string::*;

verus! {

/// A function definition's rendered form.
#[derive(Debug, PartialEq, Eq)]
pub struct FunctionSymbol {
    /// The span of the whole definition.
    pub range: SrcRange,
    /// Comment block, top to bottom, followed by the signature.
    pub description: String,
    /// The name the signature declares.
    pub name: String,
    /// The signature's text, one line.
    pub signature: String,
    /// The leading contiguous comment block, when there is one.
    pub comments: Option<String>,
}

/// The mathematical content of a `FunctionSymbol`.
pub struct FunctionSymbolView {
    pub range: SrcRange,
    pub description: Seq<char>,
    pub name: Seq<char>,
    pub signature: Seq<char>,
    pub comments: Option<Seq<char>>,
}

impl View for FunctionSymbol {
    type V = FunctionSymbolView;

    open spec fn view(&self) -> FunctionSymbolView {
        FunctionSymbolView {
            range: self.range,
            description: self.description@,
            name: self.name@,
            signature: self.signature@,
            comments: match self.comments {
                Some(c) => Some(c@),
                None => None,
            },
        }
    }
}

impl Clone for FunctionSymbol {
    fn clone(&self) -> (r: Self)
        ensures
            r == *self,
    {
        FunctionSymbol {
            range: self.range,
            description: self.description.clone(),
            name: self.name.clone(),
            signature: self.signature.clone(),
            comments: match &self.comments {
                Some(c) => Some(c.clone()),
                None => None,
            },
        }
    }
}

/// A module-scope variable definition's rendered form.
#[derive(Debug, PartialEq, Eq)]
pub struct VariableSymbol {
    /// The span of the whole definition.
    pub range: SrcRange,
    /// Comment block, top to bottom, followed by the declaration text.
    pub description: String,
    /// The name the definition declares.
    pub name: String,
    /// The leading contiguous comment block, when there is one.
    pub comments: Option<String>,
}

/// The mathematical content of a `VariableSymbol`.
pub struct VariableSymbolView {
    pub range: SrcRange,
    pub description: Seq<char>,
    pub name: Seq<char>,
    pub comments: Option<Seq<char>>,
}

impl View for VariableSymbol {
    type V = VariableSymbolView;

    open spec fn view(&self) -> VariableSymbolView {
        VariableSymbolView {
            range: self.range,
            description: self.description@,
            name: self.name@,
            comments: match self.comments {
                Some(c) => Some(c@),
                None => None,
            },
        }
    }
}

impl Clone for VariableSymbol {
    fn clone(&self) -> (r: Self)
        ensures
            r == *self,
    {
        VariableSymbol {
            range: self.range,
            description: self.description.clone(),
            name: self.name.clone(),
            comments: match &self.comments {
                Some(c) => Some(c.clone()),
                None => None,
            },
        }
    }
}

/// A resolved symbol: a function or a module-scope variable.
#[derive(Debug, PartialEq, Eq)]
pub enum Symbol {
    Function(FunctionSymbol),
    Variable(VariableSymbol),
}

/// The mathematical content of a `Symbol`.
pub enum SymbolView {
    Function(FunctionSymbolView),
    Variable(VariableSymbolView),
}

impl View for Symbol {
    type V = SymbolView;

    open spec fn view(&self) -> SymbolView {
        match self {
            Symbol::Function(f) => SymbolView::Function(f@),
            Symbol::Variable(v) => SymbolView::Variable(v@),
        }
    }
}

impl SymbolView {
    /// The span a resolved symbol points at.
    pub open spec fn spec_range(self) -> SrcRange {
        match self {
            SymbolView::Function(f) => f.range,
            SymbolView::Variable(v) => v.range,
        }
    }

    /// The rendered description a resolved symbol carries.
    pub open spec fn spec_description(self) -> Seq<char> {
        match self {
            SymbolView::Function(f) => f.description,
            SymbolView::Variable(v) => v.description,
        }
    }
}

impl Symbol {
    /// The span of the definition the symbol points at.
    pub fn range(&self) -> (r: SrcRange)
        ensures
            r == self@.spec_range(),
    {
        match self {
            Symbol::Function(f) => f.range,
            Symbol::Variable(v) => v.range,
        }
    }

    /// The rendered description of the definition.
    pub fn description(&self) -> (r: &str)
        ensures
            r@ == self@.spec_description(),
    {
        match self {
            Symbol::Function(f) => f.description.as_str(),
            Symbol::Variable(v) => v.description.as_str(),
        }
    }
}

/// The failure of extracting a file: a definition node missing an expected
/// sub-node; the whole file's extraction is abandoned, nothing partial kept.
#[derive(Clone, Copy, Debug, PartialEq, Eq, Structural)]
pub struct ExtractionFailure;

/// Whether a node defines a function, in either the plain or assembly form.
pub open spec fn is_function_node(nd: NodeData) -> bool {
    nd.named && (nd.kind@ == "function_definition"@ || nd.kind@ == "asm_function_definition"@)
}

/// Whether node `i` defines a module-scope variable: a variable definition
/// whose immediate parent is the module root or a "vars" block.
pub open spec fn is_global_var_node(ns: Seq<NodeData>, i: int) -> bool {
    &&& ns[i].named
    &&& ns[i].kind@ == "variable_definition"@
    &&& match ns[i].parent {
        Some(p) => ns[p as int].kind@ == "module"@ || ns[p as int].kind@ == "vars_definition"@,
        None => false,
    }
}

/// In a sequence of optional indices, each points into the record.
pub proof fn lemma_prev_sibling_bounds(ns: Seq<NodeData>, i: int, j: int)
    ensures
        match crate::tree::prev_sibling_from(ns, i, j) {
            Some(p) => 0 <= p <= j,
            None => true,
        },
    decreases j + 1,
{
    if j >= 0 {
        if !(ns[j].parent == ns[i].parent) {
            lemma_prev_sibling_bounds(ns, i, j - 1);
        }
    }
}

/// The chain of comment nodes read backward from sibling `j`: collected while
/// each is a comment starting at most one line above where the previous
/// collected node (or the definition's nearest sibling) begins. Nearest first.
pub open spec fn comment_chain_from(ns: Seq<NodeData>, j: int, pivot_line: int) -> Seq<int>
    decreases j + 1
        when 0 <= j < ns.len()
        via comment_chain_from_dec
{
    if ns[j].kind@ == "comment"@ && pivot_line - (ns[j].range.end.line as int) <= 1 {
        match prev_sibling(ns, j) {
            Some(p) => seq![j] + comment_chain_from(ns, p, ns[j].range.start.line as int),
            None => seq![j],
        }
    } else {
        Seq::empty()
    }
}

#[via_fn]
proof fn comment_chain_from_dec(ns: Seq<NodeData>, j: int, pivot_line: int) {
    lemma_prev_sibling_bounds(ns, j, j - 1);
}

/// The comment chain above node `i`: read from its previous sibling, whose own
/// start line seeds the gap rule (so the first sibling qualifies whenever it
/// is a comment). Nearest first.
pub open spec fn comment_chain(ns: Seq<NodeData>, i: int) -> Seq<int> {
    match prev_sibling(ns, i) {
        Some(p) => comment_chain_from(ns, p, ns[p].range.start.line as int),
        None => Seq::empty(),
    }
}

/// The chain's text, top comment first, each followed by one line break.
pub open spec fn chain_text(ns: Seq<NodeData>, chain: Seq<int>) -> Seq<char>
    decreases chain.len(),
{
    if chain.len() == 0 {
        Seq::empty()
    } else {
        ns[chain.last()].text@ + "\n"@ + chain_text(ns, chain.drop_last())
    }
}

/// The rendered comment block above node `i`, absent when no comment attaches.
pub open spec fn comments_of(ns: Seq<NodeData>, i: int) -> Option<Seq<char>> {
    if comment_chain(ns, i).len() == 0 {
        None
    } else {
        Some(chain_text(ns, comment_chain(ns, i)))
    }
}

/// The function symbol node `i` defines: its signature child names it; absent
/// when the signature or name sub-node is missing.
pub open spec fn function_symbol_at(ns: Seq<NodeData>, i: int) -> Option<FunctionSymbolView> {
    match child_with_field(ns, i, "signature"@) {
        None => None,
        Some(s) => match child_with_field(ns, s, "name"@) {
            None => None,
            Some(nm) => Some(
                FunctionSymbolView {
                    range: ns[i].range,
                    description: chain_text(ns, comment_chain(ns, i)) + ns[s].text@,
                    name: ns[nm].text@,
                    signature: ns[s].text@,
                    comments: comments_of(ns, i),
                },
            ),
        },
    }
}

/// The variable symbol node `i` defines; absent when its name sub-node is missing.
pub open spec fn variable_symbol_at(ns: Seq<NodeData>, i: int) -> Option<VariableSymbolView> {
    match child_with_field(ns, i, "name"@) {
        None => None,
        Some(nm) => Some(
            VariableSymbolView {
                range: ns[i].range,
                description: chain_text(ns, comment_chain(ns, i)) + ns[i].text@,
                name: ns[nm].text@,
                comments: comments_of(ns, i),
            },
        ),
    }
}

/// The mathematical content of a `SymbolTable`.
pub struct SymbolTableView {
    pub functions: Map<Seq<char>, FunctionSymbolView>,
    pub global_variables: Map<Seq<char>, VariableSymbolView>,
}

/// The table with nothing in it.
pub open spec fn empty_table_view() -> SymbolTableView {
    SymbolTableView { functions: Map::empty(), global_variables: Map::empty() }
}

/// One extraction step: what visiting node `i` adds to table `t`; nothing for
/// other nodes; absent on a definition missing its expected sub-node.
pub open spec fn extract_step(ns: Seq<NodeData>, i: int, t: SymbolTableView) -> Option<
    SymbolTableView,
> {
    if is_function_node(ns[i]) {
        match function_symbol_at(ns, i) {
            None => None,
            Some(f) => Some(
                SymbolTableView {
                    functions: t.functions.insert(f.name, f),
                    global_variables: t.global_variables,
                },
            ),
        }
    } else if is_global_var_node(ns, i) {
        match variable_symbol_at(ns, i) {
            None => None,
            Some(v) => Some(
                SymbolTableView {
                    functions: t.functions,
                    global_variables: t.global_variables.insert(v.name, v),
                },
            ),
        }
    } else {
        Some(t)
    }
}

/// The table after visiting the first `n` nodes in document order, grown from
/// `t0`; absent as soon as one definition fails to extract.
pub open spec fn extract_from(ns: Seq<NodeData>, n: int, t0: SymbolTableView) -> Option<
    SymbolTableView,
>
    decreases n,
{
    if n <= 0 {
        Some(t0)
    } else {
        match extract_from(ns, n - 1, t0) {
            None => None,
            Some(t) => extract_step(ns, n - 1, t),
        }
    }
}

/// The symbol table of a whole file, grown from the empty table.
pub open spec fn extract_table(ns: Seq<NodeData>) -> Option<SymbolTableView> {
    extract_from(ns, ns.len() as int, empty_table_view())
}

/// Once one definition fails to extract, the whole file's extraction fails.
pub proof fn lemma_extract_from_fail(ns: Seq<NodeData>, i: int, n: int, t0: SymbolTableView)
    requires
        0 <= i < n,
        extract_from(ns, i, t0) is Some,
        extract_step(ns, i, extract_from(ns, i, t0)->Some_0) is None,
    ensures
        extract_from(ns, n, t0) is None,
    decreases n,
{
    if n > i + 1 {
        lemma_extract_from_fail(ns, i, n - 1, t0);
    }
}

/// Every function symbol an extraction holds came from some definition node.
proof fn lemma_extract_provenance(
    ns: Seq<NodeData>,
    n: int,
    t0: SymbolTableView,
    name: Seq<char>,
)
    requires
        0 <= n,
        extract_from(ns, n, t0) is Some,
        extract_from(ns, n, t0)->Some_0.functions.dom().contains(name),
        !t0.functions.dom().contains(name),
    ensures
        exists|i: int|
            0 <= i < n && #[trigger] function_symbol_at(ns, i) == Some(
                extract_from(ns, n, t0)->Some_0.functions[name],
            ) && extract_from(ns, n, t0)->Some_0.functions[name].name == name,
    decreases n,
{
    let t = extract_from(ns, n, t0)->Some_0;
    let prev = extract_from(ns, n - 1, t0)->Some_0;
    if is_function_node(ns[n - 1]) {
        let f = function_symbol_at(ns, n - 1)->Some_0;
        if f.name == name {
            assert(function_symbol_at(ns, n - 1) == Some(t.functions[name]));
        } else {
            lemma_extract_provenance(ns, n - 1, t0, name);
        }
    } else {
        lemma_extract_provenance(ns, n - 1, t0, name);
    }
}

/// Rendering law: an extracted function's description is its comment block,
/// top to bottom, followed by its signature; with no comment attached it is
/// the bare signature, nothing more.
pub proof fn lemma_function_description(ns: Seq<NodeData>, name: Seq<char>)
    requires
        extract_table(ns) is Some,
        extract_table(ns)->Some_0.functions.dom().contains(name),
    ensures
        ({
            let f = extract_table(ns)->Some_0.functions[name];
            &&& (f.comments is None ==> f.description == f.signature)
            &&& (f.comments matches Some(c) ==> f.description == c + f.signature)
        }),
{
    lemma_extract_provenance(ns, ns.len() as int, empty_table_view(), name);
    let i = choose|i: int|
        0 <= i < ns.len() && #[trigger] function_symbol_at(ns, i) == Some(
            extract_table(ns)->Some_0.functions[name],
        ) && extract_table(ns)->Some_0.functions[name].name == name;
    let f = extract_table(ns)->Some_0.functions[name];
    if f.comments is None {
        assert(comment_chain(ns, i).len() == 0);
        assert(chain_text(ns, comment_chain(ns, i)) + ns[child_with_field(
            ns,
            i,
            "signature"@,
        )->Some_0].text@ =~= ns[child_with_field(ns, i, "signature"@)->Some_0].text@);
    }
}

/// Resolution law: at any call site of `name`, in any file, a table extracted
/// from `ns` answers with that function symbol; defined without a leading
/// comment, the symbol describes itself by its bare signature alone.
pub proof fn lemma_call_site_description(
    ns: Seq<NodeData>,
    ms: Seq<NodeData>,
    j: int,
    name: Seq<char>,
)
    requires
        extract_table(ns) is Some,
        extract_table(ns)->Some_0.functions.dom().contains(name),
        ref_context(ms, j) == RefContext::CallSite,
    ensures
        resolve_in_table(extract_table(ns)->Some_0, ref_context(ms, j), name) == Some(
            SymbolView::Function(extract_table(ns)->Some_0.functions[name]),
        ),
        extract_table(ns)->Some_0.functions[name].comments is None
            ==> resolve_in_table(
            extract_table(ns)->Some_0,
            ref_context(ms, j),
            name,
        )->Some_0.spec_description() == extract_table(ns)->Some_0.functions[name].signature,
{
    lemma_function_description(ns, name);
}

/// Per file: every function and every module-scope variable, by name.
#[derive(Clone)]
pub struct SymbolTable {
    pub functions: NameMap<FunctionSymbol>,
    pub global_variables: NameMap<VariableSymbol>,
}

impl View for SymbolTable {
    type V = SymbolTableView;

    open spec fn view(&self) -> SymbolTableView {
        SymbolTableView {
            functions: self.functions@.map_values(|f: FunctionSymbol| f@),
            global_variables: self.global_variables@.map_values(|v: VariableSymbol| v@),
        }
    }
}

/// Inserting then abstracting is abstracting then inserting the abstraction.
pub proof fn lemma_map_values_insert<K, V, W>(m: Map<K, V>, f: spec_fn(V) -> W, k: K, v: V)
    ensures
        m.insert(k, v).map_values(f) == m.map_values(f).insert(k, f(v)),
{
    assert(m.insert(k, v).map_values(f) =~= m.map_values(f).insert(k, f(v)));
}

/// Looking a key up below or above the abstraction is the same.
pub proof fn lemma_map_values_get<K, V, W>(m: Map<K, V>, f: spec_fn(V) -> W, k: K)
    ensures
        m.map_values(f).dom().contains(k) == m.dom().contains(k),
        m.dom().contains(k) ==> m.map_values(f)[k] == f(m[k]),
{
}

impl SymbolTable {
    /// A name lookup below the abstraction agrees with one above it.
    pub proof fn lemma_view_functions(&self, k: Seq<char>)
        ensures
            self@.functions.dom().contains(k) == self.functions@.dom().contains(k),
            self.functions@.dom().contains(k) ==> self@.functions[k] == self.functions@[k]@,
    {
        lemma_map_values_get(self.functions@, |x: FunctionSymbol| x@, k);
    }

    /// A name lookup below the abstraction agrees with one above it.
    pub proof fn lemma_view_globals(&self, k: Seq<char>)
        ensures
            self@.global_variables.dom().contains(k) == self.global_variables@.dom().contains(k),
            self.global_variables@.dom().contains(k) ==> self@.global_variables[k]
                == self.global_variables@[k]@,
    {
        lemma_map_values_get(self.global_variables@, |x: VariableSymbol| x@, k);
    }

    /// The table with nothing in it.
    pub fn new() -> (r: Self)
        ensures
            r@ == empty_table_view(),
    {
        let r = SymbolTable { functions: NameMap::new(), global_variables: NameMap::new() };
        proof {
            assert(r@.functions =~= empty_table_view().functions);
            assert(r@.global_variables =~= empty_table_view().global_variables);
        }
        r
    }
}

/// The comment block above node `i`, rendered: the full text (empty when no
/// comment attaches) and, beside it, the optional block itself.
fn collect_comments(tree: &SyntaxTree, i: usize) -> (r: (String, Option<String>))
    requires
        i < tree.nodes@.len(),
    ensures
        r.0@ == chain_text(tree.nodes@, comment_chain(tree.nodes@, i as int)),
        match r.1 {
            Some(c) => comments_of(tree.nodes@, i as int) == Some(c@),
            None => comments_of(tree.nodes@, i as int) is None,
        },
{
    let ghost ns = tree.nodes@;
    let mut chain: Vec<usize> = Vec::new();
    let ghost gchain: Seq<int> = comment_chain(ns, i as int);
    match find_prev_sibling(tree, i) {
        None => {},
        Some(p) => {
            let mut cur: usize = p;
            let mut pivot_line: usize = tree.nodes[p].range.start.line;
            let mut running = true;
            while running
                invariant
                    tree.nodes@ == ns,
                    cur < ns.len(),
                    forall|k: int| 0 <= k < chain@.len() ==> (chain@[k] as int) < ns.len(),
                    running ==> gchain == chain@.map_values(|v: usize| v as int)
                        + comment_chain_from(ns, cur as int, pivot_line as int),
                    !running ==> gchain == chain@.map_values(|v: usize| v as int),
                decreases cur + 1, (if running {
                    1int
                } else {
                    0int
                }),
            {
                let nd = &tree.nodes[cur];
                let is_comment = text::str_eq(nd.kind.as_str(), "comment");
                let el: usize = nd.range.end.line;
                let gap_ok = pivot_line <= el || pivot_line - el <= 1;
                if is_comment && gap_ok {
                    let ghost chain0 = chain@;
                    chain.push(cur);
                    proof {
                        assert(chain@.map_values(|v: usize| v as int) =~= chain0.map_values(
                            |v: usize| v as int,
                        ).push(cur as int));
                    }
                    pivot_line = tree.nodes[cur].range.start.line;
                    match find_prev_sibling(tree, cur) {
                        Some(q) => {
                            proof {
                                assert(chain0.map_values(|v: usize| v as int).push(cur as int)
                                    + comment_chain_from(ns, q as int, pivot_line as int)
                                    =~= chain0.map_values(|v: usize| v as int) + (seq![cur as int]
                                    + comment_chain_from(ns, q as int, pivot_line as int)));
                            }
                            cur = q;
                        },
                        None => {
                            proof {
                                assert(chain0.map_values(|v: usize| v as int).push(cur as int)
                                    =~= chain0.map_values(|v: usize| v as int) + seq![
                                        cur as int,
                                    ]);
                            }
                            running = false;
                        },
                    }
                } else {
                    proof {
                        assert(comment_chain_from(ns, cur as int, pivot_line as int)
                            =~= Seq::<int>::empty());
                        assert(chain@.map_values(|v: usize| v as int) + Seq::<int>::empty()
                            =~= chain@.map_values(|v: usize| v as int));
                    }
                    running = false;
                }
            }
        },
    }
    proof {
        if prev_sibling(ns, i as int) is None {
            assert(gchain =~= chain@.map_values(|v: usize| v as int));
        }
    }
    let m: usize = chain.len();
    let mut out = String::new();
    let mut k: usize = m;
    proof {
        assert(chain@.map_values(|v: usize| v as int).take(m as int) =~= chain@.map_values(
            |v: usize| v as int,
        ));
    }
    while k > 0
        invariant
            m == chain@.len(),
            k <= m,
            forall|t: int| 0 <= t < chain@.len() ==> (chain@[t] as int) < tree.nodes@.len(),
            tree.nodes@ == ns,
            gchain == chain@.map_values(|v: usize| v as int),
            chain_text(ns, gchain.take(m as int)) == out@ + chain_text(ns, gchain.take(k as int)),
        decreases k,
    {
        let idx = chain[k - 1];
        out.append(tree.nodes[idx].text.as_str());
        out.append("\n");
        proof {
            assert(gchain.take(k as int).drop_last() =~= gchain.take(k as int - 1));
            assert(gchain.take(k as int).last() == chain@[k as int - 1] as int);
        }
        k -= 1;
    }
    proof {
        assert(gchain.take(m as int) =~= gchain);
        assert(chain_text(ns, gchain.take(0)) =~= Seq::<char>::empty());
        assert(out@ + Seq::<char>::empty() =~= out@);
    }
    if chain.is_empty() {
        proof {
            assert(gchain.len() == 0);
        }
        (out, None)
    } else {
        let block = out.clone();
        (out, Some(block))
    }
}

impl FunctionSymbol {
    /// The function symbol node `i` defines, with its comment block rendered;
    /// absent when the signature or name sub-node is missing.
    pub fn from_node(tree: &SyntaxTree, i: usize) -> (r: Option<FunctionSymbol>)
        requires
            i < tree.nodes@.len(),
        ensures
            match r {
                Some(f) => function_symbol_at(tree.nodes@, i as int) == Some(f@),
                None => function_symbol_at(tree.nodes@, i as int) is None,
            },
    {
        let s = match find_child_with_field(tree, i, "signature") {
            Some(s) => s,
            None => {
                return None;
            },
        };
        let nm = match find_child_with_field(tree, s, "name") {
            Some(nm) => nm,
            None => {
                return None;
            },
        };
        let (ctext, comments) = collect_comments(tree, i);
        let signature = tree.nodes[s].text.clone();
        let name = tree.nodes[nm].text.clone();
        let description = ctext.concat(signature.as_str());
        Some(FunctionSymbol { range: tree.nodes[i].range, description, name, signature, comments })
    }
}

impl VariableSymbol {
    /// The variable symbol node `i` defines, with its comment block rendered;
    /// absent when the name sub-node is missing.
    pub fn from_node(tree: &SyntaxTree, i: usize) -> (r: Option<VariableSymbol>)
        requires
            i < tree.nodes@.len(),
        ensures
            match r {
                Some(v) => variable_symbol_at(tree.nodes@, i as int) == Some(v@),
                None => variable_symbol_at(tree.nodes@, i as int) is None,
            },
    {
        let nm = match find_child_with_field(tree, i, "name") {
            Some(nm) => nm,
            None => {
                return None;
            },
        };
        let (ctext, comments) = collect_comments(tree, i);
        let name = tree.nodes[nm].text.clone();
        let description = ctext.concat(tree.nodes[i].text.as_str());
        Some(VariableSymbol { range: tree.nodes[i].range, description, name, comments })
    }
}

/// Walk the whole record in document order and add every definition to the
/// table; fail fast on the first definition missing an expected sub-node,
/// leaving the table partially grown for the caller to discard.
pub fn traverse_tree(tree: &SyntaxTree, symbol_table: &mut SymbolTable) -> (r: Result<
    (),
    ExtractionFailure,
>)
    requires
        tree.wf(),
    ensures
        match r {
            Ok(()) => extract_from(tree.nodes@, tree.nodes@.len() as int, old(symbol_table)@)
                == Some(final(symbol_table)@),
            Err(_) => extract_from(tree.nodes@, tree.nodes@.len() as int, old(symbol_table)@)
                is None,
        },
{
    let ghost ns = tree.nodes@;
    let n: usize = tree.nodes.len();
    let mut i: usize = 0;
    while i < n
        invariant
            tree.nodes@ == ns,
            crate::tree::tree_wf(ns),
            n == ns.len(),
            i <= n,
            extract_from(ns, i as int, old(symbol_table)@) == Some(symbol_table@),
        decreases n - i,
    {
        let nd = &tree.nodes[i];
        let is_fn = nd.named && (text::str_eq(nd.kind.as_str(), "function_definition")
            || text::str_eq(nd.kind.as_str(), "asm_function_definition"));
        if is_fn {
            match FunctionSymbol::from_node(tree, i) {
                Some(f) => {
                    proof {
                        lemma_map_values_insert(
                            symbol_table.functions@,
                            |x: FunctionSymbol| x@,
                            f.name@,
                            f,
                        );
                    }
                    let name = f.name.clone();
                    symbol_table.functions.insert(name, f);
                },
                None => {
                    proof {
                        lemma_extract_from_fail(ns, i as int, n as int, old(symbol_table)@);
                    }
                    return Err(ExtractionFailure);
                },
            }
        } else {
            let mut is_var = false;
            if nd.named && text::str_eq(nd.kind.as_str(), "variable_definition") {
                match nd.parent {
                    Some(p) => {
                        proof {
                            assert(match (ns[i as int]).parent {
                                Some(q) => q < i as int,
                                None => true,
                            });
                        }
                        let pk = &tree.nodes[p];
                        is_var = text::str_eq(pk.kind.as_str(), "module") || text::str_eq(
                            pk.kind.as_str(),
                            "vars_definition",
                        );
                    },
                    None => {},
                }
            }
            if is_var {
                match VariableSymbol::from_node(tree, i) {
                    Some(v) => {
                        proof {
                            lemma_map_values_insert(
                                symbol_table.global_variables@,
                                |x: VariableSymbol| x@,
                                v.name@,
                                v,
                            );
                        }
                        let name = v.name.clone();
                        symbol_table.global_variables.insert(name, v);
                    },
                    None => {
                        proof {
                            lemma_extract_from_fail(ns, i as int, n as int, old(symbol_table)@);
                        }
                        return Err(ExtractionFailure);
                    },
                }
            }
        }
        i += 1;
    }
    Ok(())
}

/// How an identifier is being used, read from its syntactic surroundings.
pub enum RefContext {
    /// The identifier names the callee of a call.
    CallSite,
    /// The identifier stands inside a function or assembly-function header.
    FunctionHeader,
    /// Any other placement.
    Other,
    /// The surroundings give no classification (no parent, or none above it).
    Unplaced,
}

/// Classify the identifier at node `i` by its parent's kind and, when the
/// parent is only a wrapper, its grandparent's.
pub open spec fn ref_context(ns: Seq<NodeData>, i: int) -> RefContext {
    match ns[i].parent {
        None => RefContext::Unplaced,
        Some(p) => {
            if ns[p as int].kind@ == "call"@ {
                RefContext::CallSite
            } else {
                match ns[p as int].parent {
                    None => RefContext::Unplaced,
                    Some(g) => {
                        if ns[g as int].kind@ == "function_definition"@ || ns[g as int].kind@
                            == "asm_function_definition"@ {
                            RefContext::FunctionHeader
                        } else {
                            RefContext::Other
                        }
                    },
                }
            }
        },
    }
}

/// What a table resolves `name` to in context `ctx`: a call or a header looks
/// only among the functions; anything else looks among the functions first,
/// then the module-scope variables.
pub open spec fn resolve_in_table(t: SymbolTableView, ctx: RefContext, name: Seq<char>) -> Option<
    SymbolView,
> {
    match ctx {
        RefContext::CallSite | RefContext::FunctionHeader => {
            if t.functions.dom().contains(name) {
                Some(SymbolView::Function(t.functions[name]))
            } else {
                None
            }
        },
        RefContext::Other => {
            if t.functions.dom().contains(name) {
                Some(SymbolView::Function(t.functions[name]))
            } else if t.global_variables.dom().contains(name) {
                Some(SymbolView::Variable(t.global_variables[name]))
            } else {
                None
            }
        },
        RefContext::Unplaced => None,
    }
}

impl SymbolTable {
    /// The symbol this table resolves for the identifier at node `node`,
    /// classified by its surroundings; nothing when the table has no match.
    pub fn find_symbol(&self, tree: &SyntaxTree, node: usize, name: &str) -> (r: Option<Symbol>)
        requires
            tree.wf(),
            node < tree.nodes@.len(),
        ensures
            match r {
                Some(s) => resolve_in_table(self@, ref_context(tree.nodes@, node as int), name@)
                    == Some(s@),
                None => resolve_in_table(self@, ref_context(tree.nodes@, node as int), name@)
                    is None,
            },
    {
        let ghost ns = tree.nodes@;
        let p = match tree.nodes[node].parent {
            Some(p) => p,
            None => {
                return None;
            },
        };
        proof {
            assert(match (ns[node as int]).parent {
                Some(q) => q < node as int,
                None => true,
            });
        }
        let in_functions: bool;
        if text::str_eq(tree.nodes[p].kind.as_str(), "call") {
            in_functions = true;
        } else {
            let g = match tree.nodes[p].parent {
                Some(g) => g,
                None => {
                    return None;
                },
            };
            proof {
                assert(match (ns[p as int]).parent {
                    Some(q) => q < p as int,
                    None => true,
                });
            }
            if text::str_eq(tree.nodes[g].kind.as_str(), "function_definition") || text::str_eq(
                tree.nodes[g].kind.as_str(),
                "asm_function_definition",
            ) {
                in_functions = true;
            } else {
                match self.functions.get(name) {
                    Some(f) => {
                        proof {
                            lemma_map_values_get(self.functions@, |x: FunctionSymbol| x@, name@);
                        }
                        return Some(Symbol::Function(f.clone()));
                    },
                    None => {},
                }
                proof {
                    lemma_map_values_get(self.functions@, |x: FunctionSymbol| x@, name@);
                    lemma_map_values_get(self.global_variables@, |x: VariableSymbol| x@, name@);
                }
                return match self.global_variables.get(name) {
                    Some(v) => Some(Symbol::Variable(v.clone())),
                    None => None,
                };
            }
        }
        proof {
            lemma_map_values_get(self.functions@, |x: FunctionSymbol| x@, name@);
        }
        match self.functions.get(name) {
            Some(f) => Some(Symbol::Function(f.clone())),
            None => None,
        }
    }

    /// The symbol table of a whole parsed file, grown from the empty table;
    /// the error when some definition lacks an expected sub-node.
    pub fn from_tree(tree: &SyntaxTree) -> (r: Result<SymbolTable, ExtractionFailure>)
        requires
            tree.wf(),
        ensures
            match r {
                Ok(t) => extract_table(tree.nodes@) == Some(t@),
                Err(_) => extract_table(tree.nodes@) is None,
            },
    {
        let mut table = SymbolTable::new();
        match traverse_tree(tree, &mut table) {
            Ok(()) => Ok(table),
            Err(e) => Err(e),
        }
    }
}

} // verus!
