//! The library's view of a parsed file: a flat record of the syntax tree in
//! document (preorder) order. The external parser produces the concrete tree;
//! whoever drives the library converts it, node for node, into `NodeData`
//! records. All navigation — children by field, previous siblings, the node
//! under a cursor — is verified logic over this model.

use vstd::prelude::*;
use vstd::string::*;

verus! {

/// Where a character stands in a file: line then column, both zero-based.
#[derive(Clone, Copy, Debug, PartialEq, Eq, Structural)]
pub struct Position {
    pub line: usize,
    pub character: usize,
}

/// The span of a definition, start inclusive, end exclusive.
#[derive(Clone, Copy, Debug, PartialEq, Eq, Structural)]
pub struct SrcRange {
    pub start: Position,
    pub end: Position,
}

/// One node of the parsed tree, in document order.
#[derive(Clone)]
pub struct NodeData {
    /// The grammar's name for the node, such as "function_definition".
    pub kind: String,
    /// Whether the grammar names the node, as opposed to an anonymous token.
    pub named: bool,
    /// The field name under which the parent holds this node, if any.
    pub field: Option<String>,
    /// Index of the parent record; the root has none.
    pub parent: Option<usize>,
    /// The span the node covers.
    pub range: SrcRange,
    /// The text the node spans.
    pub text: String,
}

/// A whole parsed file: its nodes in preorder, the root first.
#[derive(Clone)]
pub struct SyntaxTree {
    pub nodes: Vec<NodeData>,
}

/// A preorder record is well formed when every parent stands before its child.
pub open spec fn tree_wf(ns: Seq<NodeData>) -> bool {
    forall|i: int|
        0 <= i < ns.len() ==> match (#[trigger] ns[i]).parent {
            Some(p) => p < i,
            None => true,
        }
}

impl SyntaxTree {
    /// Whether every parent index points upward; established by `check_wf`.
    pub open spec fn wf(&self) -> bool {
        tree_wf(self.nodes@)
    }

    /// Whether the record is well formed: every parent stands before its child.
    pub fn check_wf(&self) -> (r: bool)
        ensures
            r == self.wf(),
    {
        let n: usize = self.nodes.len();
        let mut i: usize = 0;
        while i < n
            invariant
                n == self.nodes@.len(),
                i <= n,
                forall|k: int|
                    0 <= k < i ==> match (#[trigger] self.nodes@[k]).parent {
                        Some(p) => p < k,
                        None => true,
                    },
            decreases n - i,
        {
            match self.nodes[i].parent {
                Some(p) => {
                    if p >= i {
                        return false;
                    }
                },
                None => {},
            }
            i += 1;
        }
        true
    }
}

/// The nearest preceding node that shares `i`'s parent, scanning down from `j`.
pub open spec fn prev_sibling_from(ns: Seq<NodeData>, i: int, j: int) -> Option<int>
    decreases j + 1,
{
    if j < 0 {
        None
    } else if ns[j].parent == ns[i].parent {
        Some(j)
    } else {
        prev_sibling_from(ns, i, j - 1)
    }
}

/// The sibling just before node `i` in document order, if any.
pub open spec fn prev_sibling(ns: Seq<NodeData>, i: int) -> Option<int> {
    prev_sibling_from(ns, i, i - 1)
}

/// The sibling just before node `i`, if any.
pub fn find_prev_sibling(tree: &SyntaxTree, i: usize) -> (r: Option<usize>)
    requires
        i < tree.nodes@.len(),
    ensures
        match r {
            Some(j) => prev_sibling(tree.nodes@, i as int) == Some(j as int) && j < i,
            None => prev_sibling(tree.nodes@, i as int) is None,
        },
{
    let mut j: usize = i;
    while j > 0
        invariant
            i < tree.nodes@.len(),
            j <= i,
            prev_sibling(tree.nodes@, i as int) == prev_sibling_from(
                tree.nodes@,
                i as int,
                j as int - 1,
            ),
        decreases j,
    {
        j -= 1;
        if option_usize_eq(&tree.nodes[j].parent, &tree.nodes[i].parent) {
            return Some(j);
        }
    }
    None
}

/// Whether two optional indices are the same.
pub fn option_usize_eq(a: &Option<usize>, b: &Option<usize>) -> (r: bool)
    ensures
        r == (*a == *b),
{
    match (a, b) {
        (Some(x), Some(y)) => *x == *y,
        (None, None) => true,
        _ => false,
    }
}

/// The first node (smallest index) held by `i` under field `f`, scanning from `from`.
pub open spec fn child_with_field_from(
    ns: Seq<NodeData>,
    i: int,
    f: Seq<char>,
    from: int,
) -> Option<int>
    decreases ns.len() - from,
{
    if from < 0 || from >= ns.len() {
        None
    } else if ns[from].parent == Some(i as usize) && match ns[from].field {
        Some(g) => g@ == f,
        None => false,
    } {
        Some(from)
    } else {
        child_with_field_from(ns, i, f, from + 1)
    }
}

/// The first child of node `i` whose field name is `f`.
pub open spec fn child_with_field(ns: Seq<NodeData>, i: int, f: Seq<char>) -> Option<int> {
    child_with_field_from(ns, i, f, 0)
}

/// The first child of node `i` held under field `f`, if any.
pub fn find_child_with_field(tree: &SyntaxTree, i: usize, f: &str) -> (r: Option<usize>)
    ensures
        match r {
            Some(j) => child_with_field(tree.nodes@, i as int, f@) == Some(j as int) && (j as int)
                < tree.nodes@.len(),
            None => child_with_field(tree.nodes@, i as int, f@) is None,
        },
{
    let n: usize = tree.nodes.len();
    let mut j: usize = 0;
    while j < n
        invariant
            n == tree.nodes@.len(),
            j <= n,
            child_with_field(tree.nodes@, i as int, f@) == child_with_field_from(
                tree.nodes@,
                i as int,
                f@,
                j as int,
            ),
        decreases n - j,
    {
        let nd = &tree.nodes[j];
        let mut hit = false;
        match nd.parent {
            Some(p) => {
                if p == i {
                    match &nd.field {
                        Some(g) => {
                            hit = crate::text::str_eq(g.as_str(), f);
                        },
                        None => {},
                    }
                }
            },
            None => {},
        }
        if hit {
            return Some(j);
        }
        j += 1;
    }
    None
}

/// Whether `p` lies at or after `a`, ordering lines before columns.
pub open spec fn point_le(a: Position, p: Position) -> bool {
    a.line < p.line || (a.line == p.line && a.character <= p.character)
}

/// Whether `p` lies strictly before `b`.
pub open spec fn point_lt(p: Position, b: Position) -> bool {
    p.line < b.line || (p.line == b.line && p.character < b.character)
}

/// Whether a node's span covers the position: start inclusive, end exclusive.
pub open spec fn covers(nd: NodeData, p: Position) -> bool {
    point_le(nd.range.start, p) && point_lt(p, nd.range.end)
}

/// Whether node `nd` covers position `p`.
pub fn node_covers(nd: &NodeData, p: Position) -> (r: bool)
    ensures
        r == covers(*nd, p),
{
    let s = nd.range.start;
    let e = nd.range.end;
    (s.line < p.line || (s.line == p.line && s.character <= p.character)) && (p.line < e.line || (
    p.line == e.line && p.character < e.character))
}

/// The first child of `i` (smallest index) covering `p`, scanning from `from`.
pub open spec fn covering_child_from(
    ns: Seq<NodeData>,
    i: int,
    p: Position,
    from: int,
) -> Option<int>
    decreases ns.len() - from,
{
    if from < 0 || from >= ns.len() {
        None
    } else if ns[from].parent == Some(i as usize) && covers(ns[from], p) {
        Some(from)
    } else {
        covering_child_from(ns, i, p, from + 1)
    }
}

/// The first child of node `i` covering `p`.
pub open spec fn covering_child(ns: Seq<NodeData>, i: int, p: Position) -> Option<int> {
    covering_child_from(ns, i, p, 0)
}

/// In a well-formed record a child stands after its parent.
pub proof fn lemma_covering_child_after(ns: Seq<NodeData>, i: int, p: Position, from: int)
    requires
        tree_wf(ns),
        from >= 0,
        0 <= i <= usize::MAX,
    ensures
        match covering_child_from(ns, i, p, from) {
            Some(j) => i < j < ns.len(),
            None => true,
        },
    decreases ns.len() - from,
{
    if 0 <= from < ns.len() {
        if ns[from].parent == Some(i as usize) && covers(ns[from], p) {
            assert(match (ns[from]).parent {
                Some(q) => q < from,
                None => true,
            });
        } else {
            lemma_covering_child_after(ns, i, p, from + 1);
        }
    }
}

/// The node reached from `i` by descending into the first covering child at
/// every step: the position's deepest covering node along that chain.
pub open spec fn locate_from(ns: Seq<NodeData>, i: int, p: Position) -> int
    decreases ns.len() - i
        when tree_wf(ns) && 0 <= i < ns.len()
{
    match covering_child(ns, i, p) {
        Some(j) => if i < j < ns.len() {
            locate_from(ns, j, p)
        } else {
            i
        },
        None => i,
    }
}

/// The smallest node covering `p`: descend from the root while a child covers it.
pub open spec fn locate(ns: Seq<NodeData>, p: Position) -> Option<int> {
    if ns.len() > 0 && covers(ns[0], p) {
        Some(locate_from(ns, 0, p))
    } else {
        None
    }
}

/// The first child of node `i` covering `p`, if any.
fn find_covering_child(tree: &SyntaxTree, i: usize, p: Position) -> (r: Option<usize>)
    requires
        tree.wf(),
        i < tree.nodes@.len(),
    ensures
        match r {
            Some(j) => covering_child(tree.nodes@, i as int, p) == Some(j as int) && (i as int) < j
                < tree.nodes@.len(),
            None => covering_child(tree.nodes@, i as int, p) is None,
        },
{
    let n: usize = tree.nodes.len();
    let mut j: usize = 0;
    while j < n
        invariant
            n == tree.nodes@.len(),
            j <= n,
            tree.wf(),
            covering_child(tree.nodes@, i as int, p) == covering_child_from(
                tree.nodes@,
                i as int,
                p,
                j as int,
            ),
        decreases n - j,
    {
        let nd = &tree.nodes[j];
        let mut hit = false;
        match nd.parent {
            Some(q) => {
                if q == i && node_covers(nd, p) {
                    hit = true;
                }
            },
            None => {},
        }
        if hit {
            proof {
                lemma_covering_child_after(tree.nodes@, i as int, p, j as int);
            }
            return Some(j);
        }
        j += 1;
    }
    None
}

/// The smallest node covering position `p`, when one does.
pub fn find_node_at(tree: &SyntaxTree, p: Position) -> (r: Option<usize>)
    requires
        tree.wf(),
    ensures
        match r {
            Some(i) => locate(tree.nodes@, p) == Some(i as int) && (i as int)
                < tree.nodes@.len(),
            None => locate(tree.nodes@, p) is None,
        },
{
    let n: usize = tree.nodes.len();
    if n == 0 {
        return None;
    }
    if !node_covers(&tree.nodes[0], p) {
        return None;
    }
    let mut cur: usize = 0;
    loop
        invariant
            tree.wf(),
            n == tree.nodes@.len(),
            cur < n,
            locate(tree.nodes@, p) == Some(locate_from(tree.nodes@, cur as int, p)),
        decreases n - cur,
    {
        match find_covering_child(tree, cur, p) {
            Some(j) => {
                cur = j;
            },
            None => {
                return Some(cur);
            },
        }
    }
}

} // verus!
