use vstd::prelude::*;
use crate::qualified_name::{spec_to_native, QualifiedName};
use crate::resolver::{chars_lt, str_chars_lt};
use crate::symbol::{clone_opt_string, CodeSymbol, SymbolId, SymbolKind};
use crate::text::{chars_of, string_push};

verus! {

/// Lines a call-chain snippet keeps.
pub const SNIPPET_MAX_LINES: usize = 50;

/// Depth cap of a function-context traversal.
pub const CONTEXT_MAX_DEPTH: u32 = 5;

/// Fanout cap of a function-context traversal.
pub const CONTEXT_MAX_FANOUT: u32 = 200;

/// Depth cap of the containment hierarchy around a symbol.
pub const HIERARCHY_MAX_DEPTH: u32 = 2;

/// A node in a call chain traversal result.
#[derive(Debug)]
pub struct CallChainNode {
    pub symbol_id: SymbolId,
    pub name: String,
    pub qualified_name: String,
    pub kind: SymbolKind,
    pub file_path: String,
    pub line_range: (u32, u32),
    pub depth: u32,
    pub signature: Option<String>,
    pub doc_comment: Option<String>,
    pub snippet: Option<String>,
}

impl Clone for CallChainNode {
    fn clone(&self) -> (r: CallChainNode)
        ensures
            r == *self,
    {
        CallChainNode {
            symbol_id: self.symbol_id,
            name: self.name.clone(),
            qualified_name: self.qualified_name.clone(),
            kind: self.kind,
            file_path: self.file_path.clone(),
            line_range: self.line_range,
            depth: self.depth,
            signature: clone_opt_string(&self.signature),
            doc_comment: clone_opt_string(&self.doc_comment),
            snippet: clone_opt_string(&self.snippet),
        }
    }
}

/// Structured function context: callers, callees, and hierarchy around a symbol.
#[derive(Debug, Clone)]
pub struct FunctionContext {
    pub symbol: CallChainNode,
    pub callers: Vec<CallChainNode>,
    pub callees: Vec<CallChainNode>,
    pub hierarchy: Vec<CallChainNode>,
}

/// The depth, fanout and hierarchy depth a function-context request uses:
/// the requested ones capped at 5, 200 and (the capped depth) 2.
pub fn context_limits(max_depth: u32, max_fanout: u32) -> (r: (u32, u32, u32))
    ensures
        r.0 == if max_depth < CONTEXT_MAX_DEPTH { max_depth } else { CONTEXT_MAX_DEPTH },
        r.1 == if max_fanout < CONTEXT_MAX_FANOUT { max_fanout } else { CONTEXT_MAX_FANOUT },
        r.2 == if r.0 < HIERARCHY_MAX_DEPTH { r.0 } else { HIERARCHY_MAX_DEPTH },
{
    let d = if max_depth < CONTEXT_MAX_DEPTH { max_depth } else { CONTEXT_MAX_DEPTH };
    let f = if max_fanout < CONTEXT_MAX_FANOUT { max_fanout } else { CONTEXT_MAX_FANOUT };
    let h = if d < HIERARCHY_MAX_DEPTH { d } else { HIERARCHY_MAX_DEPTH };
    (d, f, h)
}

/// A line as `str::lines` yields it from a piece that ended in a newline:
/// without a final carriage return.
pub open spec fn strip_cr(line: Seq<char>) -> Seq<char> {
    if line.len() > 0 && line.last() == '\r' { line.drop_last() } else { line }
}

/// Scanning the first `n` chars: the finished lines and the line in progress.
pub open spec fn scan_lines(s: Seq<char>, n: int) -> (Seq<Seq<char>>, Seq<char>)
    decreases n,
{
    if n <= 0 {
        (Seq::empty(), Seq::empty())
    } else {
        let (lines, cur) = scan_lines(s, n - 1);
        if s[n - 1] == '\n' {
            (lines.push(strip_cr(cur)), Seq::empty())
        } else {
            (lines, cur.push(s[n - 1]))
        }
    }
}

/// The lines of a text, as `str::lines` splits them: at `\n` or `\r\n`,
/// with no empty line after a final line ending.
pub open spec fn text_lines(s: Seq<char>) -> Seq<Seq<char>> {
    let (lines, cur) = scan_lines(s, s.len() as int);
    if cur.len() > 0 { lines.push(cur) } else { lines }
}

/// Lines joined with `\n` between them.
pub open spec fn join_lines(lines: Seq<Seq<char>>) -> Seq<char>
    decreases lines.len(),
{
    if lines.len() == 0 {
        Seq::empty()
    } else if lines.len() == 1 {
        lines[0]
    } else {
        join_lines(lines.drop_last()) + seq!['\n'] + lines.last()
    }
}

fn push_line(out: &mut String, count: &mut usize, line: &Vec<char>, Ghost(lines): Ghost<Seq<Seq<char>>>)
    requires
        old(out)@ == join_lines(lines),
        *old(count) == lines.len(),
        lines.len() < usize::MAX,
    ensures
        final(out)@ == join_lines(lines.push(line@)),
        *final(count) == lines.len() + 1,
{
    assert(lines.push(line@).drop_last() =~= lines);
    if *count > 0 {
        string_push(out, '\n');
    } else {
        assert(lines =~= Seq::<Seq<char>>::empty());
    }
    let mut i: usize = 0;
    let ghost start = out@;
    while i < line.len()
        invariant
            i <= line@.len(),
            out@ == start + line@.take(i as int),
        decreases line@.len() - i,
    {
        string_push(out, line[i]);
        i = i + 1;
        assert(out@ =~= start + line@.take(i as int));
    }
    assert(line@.take(i as int) =~= line@);
    *count = *count + 1;
    assert(final(out)@ =~= join_lines(lines.push(line@)));
}

/// The first 50 lines of a text, joined with `\n`.
pub fn snippet_of(text: &str) -> (r: String)
    ensures
        r@ == join_lines(text_lines(text@).take(
            if text_lines(text@).len() < SNIPPET_MAX_LINES { text_lines(text@).len() as int } else { SNIPPET_MAX_LINES as int },
        )),
{
    let cs = chars_of(text);
    let ghost s = text@;
    let n = cs.len();
    let mut out = String::new();
    let mut count: usize = 0;
    let mut cur: Vec<char> = Vec::new();
    let mut i: usize = 0;
    while i < n && count < SNIPPET_MAX_LINES
        invariant
            cs@ == s,
            n == s.len(),
            i <= n,
            count <= SNIPPET_MAX_LINES,
            count == scan_lines(s, i as int).0.len(),
            out@ == join_lines(scan_lines(s, i as int).0),
            cur@ == scan_lines(s, i as int).1,
        decreases n - i,
    {
        let c = cs[i];
        if c == '\n' {
            let ghost lines = scan_lines(s, i as int).0;
            if cur.len() > 0 && cur[cur.len() - 1] == '\r' {
                cur.pop();
            }
            push_line(&mut out, &mut count, &cur, Ghost(lines));
            cur = Vec::new();
        } else {
            cur.push(c);
        }
        i = i + 1;
    }
    proof {
        lemma_text_lines_prefix(s, i as int);
    }
    if count < SNIPPET_MAX_LINES && cur.len() > 0 {
        push_line(&mut out, &mut count, &cur, Ghost(scan_lines(s, i as int).0));
        proof {
            assert(i == n);
            let tl = text_lines(s);
            assert(tl.take(tl.len() as int) =~= tl);
        }
    } else {
        proof {
            let tl = text_lines(s);
            if count < SNIPPET_MAX_LINES {
                assert(i == n);
                assert(tl.take(tl.len() as int) =~= tl);
            } else {
                assert(tl.take(SNIPPET_MAX_LINES as int) =~= scan_lines(s, i as int).0);
            }
        }
    }
    out
}

proof fn lemma_scan_lines_prefix(s: Seq<char>, i: int, j: int)
    requires
        0 <= i <= j <= s.len(),
    ensures
        scan_lines(s, i).0.len() <= scan_lines(s, j).0.len(),
        scan_lines(s, j).0.take(scan_lines(s, i).0.len() as int) == scan_lines(s, i).0,
    decreases j - i,
{
    let k = scan_lines(s, i).0.len() as int;
    if i < j {
        lemma_scan_lines_prefix(s, i, j - 1);
        let a = scan_lines(s, j - 1).0;
        let b = scan_lines(s, j).0;
        if s[j - 1] == '\n' {
            assert(b.take(k) =~= a.take(k));
        }
    } else {
        assert(scan_lines(s, j).0.take(k) =~= scan_lines(s, i).0);
    }
}

/// Lines finished in a prefix are the first lines of the whole text.
proof fn lemma_text_lines_prefix(s: Seq<char>, i: int)
    requires
        0 <= i <= s.len(),
    ensures
        text_lines(s).len() >= scan_lines(s, i).0.len(),
        text_lines(s).take(scan_lines(s, i).0.len() as int) == scan_lines(s, i).0,
{
    lemma_scan_lines_prefix(s, i, s.len() as int);
    let (lines, cur) = scan_lines(s, s.len() as int);
    let k = scan_lines(s, i).0.len() as int;
    if cur.len() > 0 {
        assert(lines.push(cur).take(k) =~= lines.take(k));
    }
}

/// A call-chain node for a symbol found at `depth`: its qualified name in
/// the language's native form, and a snippet of the first 50 lines of its
/// body text.
pub fn symbol_to_chain_node(sym: &CodeSymbol, depth: u32) -> (r: CallChainNode)
    ensures
        r.symbol_id == sym.id,
        r.name == sym.name,
        r.qualified_name@ == spec_to_native(sym.qualified_name@, sym.language),
        r.kind == sym.kind,
        r.file_path == sym.file_path,
        r.line_range == (sym.line_range.start, sym.line_range.end),
        r.depth == depth,
        r.signature == sym.signature,
        r.doc_comment == sym.doc_comment,
        match sym.body_text {
            Some(t) => r.snippet matches Some(s) && s@ == join_lines(text_lines(t@).take(
                if text_lines(t@).len() < SNIPPET_MAX_LINES { text_lines(t@).len() as int } else { SNIPPET_MAX_LINES as int },
            )),
            None => r.snippet is None,
        },
{
    let snippet = match &sym.body_text {
        Some(t) => Some(snippet_of(t.as_str())),
        None => None,
    };
    CallChainNode {
        symbol_id: sym.id,
        name: sym.name.clone(),
        qualified_name: QualifiedName::to_native(sym.qualified_name.as_str(), sym.language),
        kind: sym.kind,
        file_path: sym.file_path.clone(),
        line_range: (sym.line_range.start, sym.line_range.end),
        depth,
        signature: clone_opt_string(&sym.signature),
        doc_comment: clone_opt_string(&sym.doc_comment),
        snippet,
    }
}

/// `a` comes strictly before `b`: a smaller depth, or the same depth and a
/// smaller qualified name.
pub open spec fn node_before(a: CallChainNode, b: CallChainNode) -> bool {
    a.depth < b.depth || (a.depth == b.depth && chars_lt(a.qualified_name@, b.qualified_name@))
}

/// The first index at or after `i` whose node `x` comes before, else the length.
pub open spec fn insert_pos_from(s: Seq<CallChainNode>, x: CallChainNode, i: int) -> int
    decreases s.len() - i,
{
    if i < 0 || i >= s.len() {
        s.len() as int
    } else if node_before(x, s[i]) {
        i
    } else {
        insert_pos_from(s, x, i + 1)
    }
}

/// The nodes stably sorted by depth, then qualified name: each in turn is
/// inserted before the first placed node it comes before.
pub open spec fn spec_sorted_nodes(s: Seq<CallChainNode>) -> Seq<CallChainNode>
    decreases s.len(),
{
    if s.len() == 0 {
        Seq::empty()
    } else {
        let t = spec_sorted_nodes(s.drop_last());
        t.insert(insert_pos_from(t, s.last(), 0), s.last())
    }
}

fn node_before_exec(a: &CallChainNode, b: &CallChainNode) -> (r: bool)
    ensures
        r == node_before(*a, *b),
{
    if a.depth < b.depth {
        return true;
    }
    if a.depth > b.depth {
        return false;
    }
    let ac = chars_of(a.qualified_name.as_str());
    let bc = chars_of(b.qualified_name.as_str());
    str_chars_lt(&ac, &bc)
}

/// Sort call-chain nodes by depth, then qualified name, keeping the order
/// of nodes that tie.
pub fn sort_chain_nodes(nodes: &Vec<CallChainNode>) -> (r: Vec<CallChainNode>)
    ensures
        r@ == spec_sorted_nodes(nodes@),
{
    let mut out: Vec<CallChainNode> = Vec::new();
    let mut i: usize = 0;
    while i < nodes.len()
        invariant
            i <= nodes@.len(),
            out@ == spec_sorted_nodes(nodes@.take(i as int)),
        decreases nodes@.len() - i,
    {
        let x = nodes[i].clone();
        let mut p: usize = 0;
        while p < out.len() && !node_before_exec(&x, &out[p])
            invariant
                p <= out@.len(),
                insert_pos_from(out@, x, 0) == insert_pos_from(out@, x, p as int),
            decreases out@.len() - p,
        {
            p = p + 1;
        }
        proof {
            assert(nodes@.take(i + 1).drop_last() =~= nodes@.take(i as int));
            assert(nodes@.take(i + 1).last() == nodes@[i as int]);
            assert(insert_pos_from(out@, x, p as int) == p as int);
        }
        out.insert(p, x);
        i = i + 1;
    }
    assert(nodes@.take(i as int) =~= nodes@);
    out
}

proof fn lemma_chars_lt_irreflexive(a: Seq<char>)
    ensures
        !chars_lt(a, a),
    decreases a.len(),
{
    if a.len() > 0 {
        lemma_chars_lt_irreflexive(a.drop_first());
    }
}

proof fn lemma_chars_lt_asymmetric(a: Seq<char>, b: Seq<char>)
    ensures
        !(chars_lt(a, b) && chars_lt(b, a)),
    decreases a.len(),
{
    if a.len() > 0 && b.len() > 0 && a[0] == b[0] {
        lemma_chars_lt_asymmetric(a.drop_first(), b.drop_first());
    }
}

proof fn lemma_chars_lt_transitive(a: Seq<char>, b: Seq<char>, c: Seq<char>)
    requires
        chars_lt(a, b),
        chars_lt(b, c),
    ensures
        chars_lt(a, c),
    decreases a.len(),
{
    if a.len() > 0 && b.len() > 0 && c.len() > 0 && a[0] == b[0] && b[0] == c[0] {
        lemma_chars_lt_transitive(a.drop_first(), b.drop_first(), c.drop_first());
    }
}

proof fn lemma_node_before_order(a: CallChainNode, b: CallChainNode, c: CallChainNode)
    ensures
        !(node_before(a, b) && node_before(b, a)),
        node_before(a, b) && node_before(b, c) ==> node_before(a, c),
{
    lemma_chars_lt_asymmetric(a.qualified_name@, b.qualified_name@);
    if node_before(a, b) && node_before(b, c) && a.depth == b.depth && b.depth == c.depth {
        lemma_chars_lt_transitive(a.qualified_name@, b.qualified_name@, c.qualified_name@);
    }
}

proof fn lemma_insert_pos(s: Seq<CallChainNode>, x: CallChainNode, i: int)
    requires
        0 <= i <= s.len(),
    ensures
        i <= insert_pos_from(s, x, i) <= s.len(),
        forall|k: int| i <= k < insert_pos_from(s, x, i) ==> !node_before(x, #[trigger] s[k]),
        insert_pos_from(s, x, i) < s.len() ==> node_before(x, s[insert_pos_from(s, x, i)]),
    decreases s.len() - i,
{
    if i < s.len() && !node_before(x, s[i]) {
        lemma_insert_pos(s, x, i + 1);
    }
}

/// Nodes in this order: none comes before an earlier one.
pub open spec fn nodes_in_order(s: Seq<CallChainNode>) -> bool {
    forall|i: int, j: int| 0 <= i < j < s.len() ==> !node_before(#[trigger] s[j], #[trigger] s[i])
}

/// Sorting call-chain nodes orders them by depth, then qualified name, and
/// keeps every node: the result is a permutation of the input.
pub proof fn lemma_sorted_nodes(s: Seq<CallChainNode>)
    ensures
        nodes_in_order(spec_sorted_nodes(s)),
        spec_sorted_nodes(s).to_multiset() == s.to_multiset(),
    decreases s.len(),
{
    broadcast use vstd::seq_lib::to_multiset_insert, vstd::seq_lib::to_multiset_build;
    if s.len() > 0 {
        lemma_sorted_nodes(s.drop_last());
        let t = spec_sorted_nodes(s.drop_last());
        let x = s.last();
        let p = insert_pos_from(t, x, 0);
        lemma_insert_pos(t, x, 0);
        let r = t.insert(p, x);
        assert forall|i: int, j: int| 0 <= i < j < r.len() implies !node_before(#[trigger] r[j], #[trigger] r[i]) by {
            if j < p {
                assert(r[i] == t[i] && r[j] == t[j]);
            } else if j == p {
                assert(r[i] == t[i]);
                assert(!node_before(x, t[i]));
            } else if i < p {
                assert(r[i] == t[i] && r[j] == t[j - 1]);
            } else if i == p {
                assert(r[j] == t[j - 1]);
                if node_before(t[j - 1], x) {
                    lemma_node_before_order(t[j - 1], x, t[p]);
                    if j - 1 == p {
                        lemma_node_before_order(x, t[p], t[p]);
                    } else {
                        assert(!node_before(t[j - 1], t[p]));
                    }
                }
            } else {
                assert(r[i] == t[i - 1] && r[j] == t[j - 1]);
            }
        }
        assert(s.drop_last().push(x) =~= s);
        assert(r.to_multiset() == t.to_multiset().insert(x));
        assert(s.drop_last().push(x).to_multiset() == s.drop_last().to_multiset().insert(x));
    } else {
        assert(s =~= Seq::<CallChainNode>::empty());
    }
}

} // verus!
