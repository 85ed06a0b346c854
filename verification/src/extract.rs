//! What the language visitors share: the context of one file, reading node
//! text, building symbols and relations, and the record of extracted items
//! with its invariant.
use vstd::prelude::*;
use vstd::utf8::*;
use vstd::string::StringSliceAdditionalSpecFns;
use crate::chunker::SyntaxNode;
use crate::hashing::xxh3_128_of;
use crate::language::{str_eq, Language};
use crate::parser::compute_body_hash;
use crate::qualified_name::join_dotted;
use crate::relation::{CodeRelation, RelationKind};
use crate::resolver::phantom_id;
use crate::symbol::{spec_symbol_id, CodeSymbol, SymbolId, SymbolKind};
use crate::text::{str_from_utf8, str_to_string};

verus! {

/// Every node's span lies within `len` bytes, in order.
pub open spec fn spans_ok(node: SyntaxNode, len: nat) -> bool
    decreases node, 1int,
{
    &&& node.start_byte <= node.end_byte <= len
    &&& children_spans_ok(node.children@, len)
}

pub open spec fn children_spans_ok(ch: Seq<SyntaxNode>, len: nat) -> bool
    decreases ch, 0int,
{
    if ch.len() == 0 {
        true
    } else {
        spans_ok(ch.last(), len) && children_spans_ok(ch.drop_last(), len)
    }
}

pub proof fn lemma_child_spans_ok(node: SyntaxNode, len: nat, i: int)
    requires
        spans_ok(node, len),
        0 <= i < node.children@.len(),
    ensures
        spans_ok(node.children@[i], len),
{
    lemma_children_spans_index(node.children@, len, i);
}

proof fn lemma_children_spans_index(ch: Seq<SyntaxNode>, len: nat, i: int)
    requires
        children_spans_ok(ch, len),
        0 <= i < ch.len(),
    ensures
        spans_ok(ch[i], len),
    decreases ch.len(),
{
    if i < ch.len() - 1 {
        assert(ch.drop_last()[i] == ch[i]);
        lemma_children_spans_index(ch.drop_last(), len, i);
    }
}

/// Every node of the list spans bytes within `len`.
pub open spec fn all_spans_ok(ch: Seq<SyntaxNode>, len: nat) -> bool {
    forall|k: int| 0 <= k < ch.len() ==> spans_ok(#[trigger] ch[k], len)
}

pub proof fn lemma_all_children_spans_ok(node: SyntaxNode, len: nat)
    requires
        spans_ok(node, len),
    ensures
        all_spans_ok(node.children@, len),
{
    assert forall|k: int| 0 <= k < node.children@.len() implies spans_ok(#[trigger] node.children@[k], len) by {
        lemma_child_spans_ok(node, len, k);
    }
}

/// The file being visited.
pub struct VisitorContext<'a> {
    pub repo_id: &'a str,
    pub file_path: &'a str,
    pub source: &'a str,
    pub language: Language,
}

/// The text a node spans, or nothing when its bytes are not UTF-8.
pub open spec fn spec_node_text(src: Seq<u8>, node: SyntaxNode) -> Seq<char> {
    let b = src.subrange(node.start_byte as int, node.end_byte as int);
    if valid_utf8(b) { decode_utf8(b) } else { Seq::empty() }
}

/// The text of the child filling field `name`, if some child fills it.
pub open spec fn spec_field_text(src: Seq<u8>, node: SyntaxNode, name: Seq<char>) -> Option<Seq<char>> {
    match spec_child_by_field(node, name) {
        Some(i) => Some(spec_node_text(src, node.children@[i])),
        None => None,
    }
}

/// The text of field `name`, or `dflt` when no child fills it.
pub open spec fn field_or(src: Seq<u8>, node: SyntaxNode, name: Seq<char>, dflt: Seq<char>) -> Seq<char> {
    match spec_field_text(src, node, name) {
        Some(t) => t,
        None => dflt,
    }
}

/// `sep` and the text of field `name`, or nothing when no child fills it.
pub open spec fn field_after(src: Seq<u8>, node: SyntaxNode, name: Seq<char>, sep: Seq<char>) -> Seq<char> {
    match spec_field_text(src, node, name) {
        Some(t) => sep + t,
        None => Seq::empty(),
    }
}

/// The first child at or after `i` of kind `kind`.
pub open spec fn spec_first_kind_from(ch: Seq<SyntaxNode>, kind: Seq<char>, i: int) -> Option<int>
    decreases ch.len() - i,
{
    if i < 0 || i >= ch.len() {
        None
    } else if ch[i].kind@ == kind {
        Some(i)
    } else {
        spec_first_kind_from(ch, kind, i + 1)
    }
}

/// The index of the first of `ch[i..]` whose kind is `k1` or `k2`.
pub open spec fn spec_first_either_from(ch: Seq<SyntaxNode>, k1: Seq<char>, k2: Seq<char>, i: int) -> Option<int>
    decreases ch.len() - i,
{
    if i < 0 || i >= ch.len() {
        None
    } else if ch[i].kind@ == k1 || ch[i].kind@ == k2 {
        Some(i)
    } else {
        spec_first_either_from(ch, k1, k2, i + 1)
    }
}

/// Over `ch[i..]`, the first node of kind `outer` with a child of kind `k1`
/// or `k2`: the text of the first such child.
pub open spec fn spec_first_inner_text(
    src: Seq<u8>,
    ch: Seq<SyntaxNode>,
    outer: Seq<char>,
    k1: Seq<char>,
    k2: Seq<char>,
    i: int,
) -> Option<Seq<char>>
    decreases ch.len() - i,
{
    if i < 0 || i >= ch.len() {
        None
    } else if ch[i].kind@ == outer && spec_first_either_from(ch[i].children@, k1, k2, 0) is Some {
        Some(spec_node_text(src, ch[i].children@[spec_first_either_from(ch[i].children@, k1, k2, 0)->0]))
    } else {
        spec_first_inner_text(src, ch, outer, k1, k2, i + 1)
    }
}

/// `new` is `old` with one more relation of this kind, from `src` to `tgt`.
pub open spec fn pushed_relation(
    old: Seq<CodeRelation>,
    new: Seq<CodeRelation>,
    src: SymbolId,
    tgt: SymbolId,
    kind: RelationKind,
) -> bool {
    &&& new.len() == old.len() + 1
    &&& new.drop_last() == old
    &&& new.last().source_id == src
    &&& new.last().target_id == tgt
    &&& new.last().kind == kind
}

/// `new` is `old` followed by one relation of this kind from `src` to the
/// phantom of each name, in order.
pub open spec fn appended_to_phantoms(
    old: Seq<CodeRelation>,
    new: Seq<CodeRelation>,
    src: SymbolId,
    kind: RelationKind,
    names: Seq<Seq<char>>,
) -> bool {
    &&& new.len() == old.len() + names.len()
    &&& new.take(old.len() as int) == old
    &&& forall|k: int|
        0 <= k < names.len() ==> {
            &&& (#[trigger] new[old.len() + k]).source_id == src
            &&& new[old.len() + k].target_id.0 == phantom_id(names[k])
            &&& new[old.len() + k].kind == kind
        }
}

/// Appending one more phantom relation keeps `appended_to_phantoms`.
pub proof fn lemma_append_phantom(
    old: Seq<CodeRelation>,
    mid: Seq<CodeRelation>,
    new: Seq<CodeRelation>,
    src: SymbolId,
    kind: RelationKind,
    names: Seq<Seq<char>>,
    name: Seq<char>,
)
    requires
        appended_to_phantoms(old, mid, src, kind, names),
        pushed_relation(mid, new, src, SymbolId(phantom_id(name)), kind),
    ensures
        appended_to_phantoms(old, new, src, kind, names.push(name)),
{
    assert(new.take(old.len() as int) =~= mid.take(old.len() as int));
    assert forall|k: int| 0 <= k < names.push(name).len() implies {
        &&& (#[trigger] new[old.len() + k]).source_id == src
        &&& new[old.len() + k].target_id.0 == phantom_id(names.push(name)[k])
        &&& new[old.len() + k].kind == kind
    } by {
        if k < names.len() {
            assert(new[old.len() + k] == mid[old.len() + k]);
        }
    }
}

/// `s` is the symbol a visitor makes of `node` under this name, qualified
/// name and kind.
pub open spec fn symbol_is(s: CodeSymbol, name: Seq<char>, qname: Seq<char>, kind: SymbolKind, node: SyntaxNode) -> bool {
    &&& s.name@ == name
    &&& s.qualified_name@ == qname
    &&& s.kind == kind
    &&& s.byte_range.start == node.start_byte
    &&& s.byte_range.end == node.end_byte
}

/// `new` holds, at the first index past `old`, the symbol a visitor makes
/// of `node` under this name and kind, qualified within `scope`.
pub open spec fn added_named(
    old: Seq<CodeSymbol>,
    new: Seq<CodeSymbol>,
    n: Seq<char>,
    scope: Seq<Seq<char>>,
    kind: SymbolKind,
    node: SyntaxNode,
) -> bool {
    &&& new.len() > old.len()
    &&& symbol_is(new[old.len() as int], n, join_dotted(scope.push(n)), kind, node)
}

/// `new` is `old` followed by one symbol per child of `ch` that `idx`
/// lists, in order: the child's name, qualified within `scope`, of this
/// kind, spanning the child.
pub open spec fn children_added(
    src: Seq<u8>,
    old: Seq<CodeSymbol>,
    new: Seq<CodeSymbol>,
    ch: Seq<SyntaxNode>,
    idx: Seq<int>,
    scope: Seq<Seq<char>>,
    kind: SymbolKind,
) -> bool {
    &&& new.len() == old.len() + idx.len()
    &&& new.take(old.len() as int) == old
    &&& forall|k: int|
        0 <= k < idx.len() ==> symbol_is(
            #[trigger] new[old.len() + k],
            field_or(src, ch[idx[k]], "name"@, Seq::empty()),
            join_dotted(scope.push(field_or(src, ch[idx[k]], "name"@, Seq::empty()))),
            kind,
            ch[idx[k]],
        )
}

/// `syms` holds the symbol a visitor makes of `node` under this name,
/// qualified name and kind.
pub open spec fn has_symbol(syms: Seq<CodeSymbol>, name: Seq<char>, qname: Seq<char>, kind: SymbolKind, node: SyntaxNode) -> bool {
    exists|k: int| 0 <= k < syms.len() && symbol_is(#[trigger] syms[k], name, qname, kind, node)
}

/// A symbol added under a name is then held.
pub proof fn lemma_added_has(
    old: Seq<CodeSymbol>,
    new: Seq<CodeSymbol>,
    n: Seq<char>,
    scope: Seq<Seq<char>>,
    kind: SymbolKind,
    node: SyntaxNode,
)
    requires
        added_named(old, new, n, scope, kind, node),
    ensures
        has_symbol(new, n, join_dotted(scope.push(n)), kind, node),
{
    let k = old.len() as int;
    assert(symbol_is(new[k], n, join_dotted(scope.push(n)), kind, node));
}

/// A held symbol stays held as the list grows.
pub proof fn lemma_has_extends(
    a: Seq<CodeSymbol>,
    b: Seq<CodeSymbol>,
    n: Seq<char>,
    q: Seq<char>,
    kind: SymbolKind,
    node: SyntaxNode,
)
    requires
        extends(a, b),
        has_symbol(a, n, q, kind, node),
    ensures
        has_symbol(b, n, q, kind, node),
{
    let k = choose|k: int| 0 <= k < a.len() && symbol_is(#[trigger] a[k], n, q, kind, node);
    assert(b[k] == a[k]);
}

/// Two runs of appended phantom relations make one.
pub proof fn lemma_append_all(
    a: Seq<CodeRelation>,
    b: Seq<CodeRelation>,
    c: Seq<CodeRelation>,
    src: SymbolId,
    kind: RelationKind,
    n1: Seq<Seq<char>>,
    n2: Seq<Seq<char>>,
)
    requires
        appended_to_phantoms(a, b, src, kind, n1),
        appended_to_phantoms(b, c, src, kind, n2),
    ensures
        appended_to_phantoms(a, c, src, kind, n1 + n2),
{
    assert(c.take(a.len() as int) =~= b.take(b.len() as int).take(a.len() as int));
    assert(c.take(a.len() as int) =~= a);
    assert forall|k: int| 0 <= k < (n1 + n2).len() implies {
        &&& (#[trigger] c[a.len() + k]).source_id == src
        &&& c[a.len() + k].target_id.0 == phantom_id((n1 + n2)[k])
        &&& c[a.len() + k].kind == kind
    } by {
        if k < n1.len() {
            assert(c[a.len() + k] == c.take(b.len() as int)[a.len() + k]);
            assert(b[a.len() + k] == c[a.len() + k]);
        } else {
            let k2 = k - n1.len();
            assert(c[b.len() + k2] == c[a.len() + k]);
        }
    }
}

/// No relation appended at all.
pub proof fn lemma_append_none(a: Seq<CodeRelation>, src: SymbolId, kind: RelationKind)
    ensures
        appended_to_phantoms(a, a, src, kind, Seq::empty()),
{
    assert(a.take(a.len() as int) =~= a);
}

/// `new` is `old` followed by one relation from `src` per item, of the
/// item's kind, to the phantom of the item's name, in order.
pub open spec fn appended_tagged(
    old: Seq<CodeRelation>,
    new: Seq<CodeRelation>,
    src: SymbolId,
    items: Seq<(RelationKind, Seq<char>)>,
) -> bool {
    &&& new.len() == old.len() + items.len()
    &&& new.take(old.len() as int) == old
    &&& forall|k: int|
        0 <= k < items.len() ==> {
            &&& (#[trigger] new[old.len() + k]).source_id == src
            &&& new[old.len() + k].target_id.0 == phantom_id(items[k].1)
            &&& new[old.len() + k].kind == items[k].0
        }
}

/// Each name tagged with one relation kind.
pub open spec fn tagged(kind: RelationKind, names: Seq<Seq<char>>) -> Seq<(RelationKind, Seq<char>)> {
    names.map_values(|n: Seq<char>| (kind, n))
}

/// Relations to phantoms of one kind, read as tagged items.
pub proof fn lemma_tagged_from_phantoms(
    old: Seq<CodeRelation>,
    new: Seq<CodeRelation>,
    src: SymbolId,
    kind: RelationKind,
    names: Seq<Seq<char>>,
)
    requires
        appended_to_phantoms(old, new, src, kind, names),
    ensures
        appended_tagged(old, new, src, tagged(kind, names)),
{
    assert forall|k: int| 0 <= k < tagged(kind, names).len() implies {
        &&& (#[trigger] new[old.len() + k]).source_id == src
        &&& new[old.len() + k].target_id.0 == phantom_id(tagged(kind, names)[k].1)
        &&& new[old.len() + k].kind == tagged(kind, names)[k].0
    } by {
        assert(tagged(kind, names)[k] == (kind, names[k]));
    }
}

/// No relations make an empty run of tagged items.
pub proof fn lemma_tagged_none(a: Seq<CodeRelation>, src: SymbolId)
    ensures
        appended_tagged(a, a, src, Seq::empty()),
{
    assert(a.take(a.len() as int) =~= a);
}

/// Two runs of tagged relations make one.
pub proof fn lemma_tagged_all(
    a: Seq<CodeRelation>,
    b: Seq<CodeRelation>,
    c: Seq<CodeRelation>,
    src: SymbolId,
    i1: Seq<(RelationKind, Seq<char>)>,
    i2: Seq<(RelationKind, Seq<char>)>,
)
    requires
        appended_tagged(a, b, src, i1),
        appended_tagged(b, c, src, i2),
    ensures
        appended_tagged(a, c, src, i1 + i2),
{
    assert(c.take(a.len() as int) =~= b.take(b.len() as int).take(a.len() as int));
    assert(c.take(a.len() as int) =~= a);
    assert forall|k: int| 0 <= k < (i1 + i2).len() implies {
        &&& (#[trigger] c[a.len() + k]).source_id == src
        &&& c[a.len() + k].target_id.0 == phantom_id((i1 + i2)[k].1)
        &&& c[a.len() + k].kind == (i1 + i2)[k].0
    } by {
        if k < i1.len() {
            assert(c[a.len() + k] == b[a.len() + k]);
        } else {
            assert(c[a.len() + k] == c[b.len() + (k - i1.len())]);
        }
    }
}

/// `rels` holds a relation of this kind from `src` to `tgt`.
pub open spec fn has_relation(rels: Seq<CodeRelation>, src: SymbolId, tgt: SymbolId, kind: RelationKind) -> bool {
    exists|j: int| 0 <= j < rels.len() && (#[trigger] rels[j]).source_id == src && rels[j].target_id == tgt && rels[j].kind == kind
}

/// `rels` holds a relation of this kind from `src` to the phantom of each
/// name.
pub open spec fn has_relations_to(rels: Seq<CodeRelation>, src: SymbolId, kind: RelationKind, names: Seq<Seq<char>>) -> bool {
    forall|k: int| 0 <= k < names.len() ==> has_relation(rels, src, SymbolId(phantom_id(#[trigger] names[k])), kind)
}

/// `rels` holds a relation from `src` to the phantom of each item's name,
/// of the item's kind.
pub open spec fn has_tagged(rels: Seq<CodeRelation>, src: SymbolId, items: Seq<(RelationKind, Seq<char>)>) -> bool {
    forall|k: int| 0 <= k < items.len() ==> has_relation(rels, src, SymbolId(phantom_id((#[trigger] items[k]).1)), items[k].0)
}

/// Relations appended to phantoms are then held.
pub proof fn lemma_appended_has(
    old: Seq<CodeRelation>,
    new: Seq<CodeRelation>,
    src: SymbolId,
    kind: RelationKind,
    names: Seq<Seq<char>>,
)
    requires
        appended_to_phantoms(old, new, src, kind, names),
    ensures
        has_relations_to(new, src, kind, names),
{
    assert forall|k: int| 0 <= k < names.len() implies has_relation(new, src, SymbolId(phantom_id(#[trigger] names[k])), kind) by {
        let j = old.len() + k;
        assert(new[j].source_id == src && new[j].target_id.0 == phantom_id(names[k]) && new[j].kind == kind);
        assert(new[j].target_id == SymbolId(phantom_id(names[k])));
    }
}

/// Tagged relations appended are then held.
pub proof fn lemma_tagged_has(
    old: Seq<CodeRelation>,
    new: Seq<CodeRelation>,
    src: SymbolId,
    items: Seq<(RelationKind, Seq<char>)>,
)
    requires
        appended_tagged(old, new, src, items),
    ensures
        has_tagged(new, src, items),
{
    assert forall|k: int| 0 <= k < items.len() implies has_relation(new, src, SymbolId(phantom_id((#[trigger] items[k]).1)), items[k].0) by {
        let j = old.len() + k;
        assert(new[j].source_id == src && new[j].target_id.0 == phantom_id(items[k].1) && new[j].kind == items[k].0);
        assert(new[j].target_id == SymbolId(phantom_id(items[k].1)));
    }
}

/// A held relation stays held as the list grows.
pub proof fn lemma_relation_extends(a: Seq<CodeRelation>, b: Seq<CodeRelation>, src: SymbolId, tgt: SymbolId, kind: RelationKind)
    requires
        rel_extends(a, b),
        has_relation(a, src, tgt, kind),
    ensures
        has_relation(b, src, tgt, kind),
{
    let j = choose|j: int| 0 <= j < a.len() && (#[trigger] a[j]).source_id == src && a[j].target_id == tgt && a[j].kind == kind;
    assert(b[j] == a[j]);
}

/// Held relations to phantoms stay held as the list grows.
pub proof fn lemma_relations_to_extends(a: Seq<CodeRelation>, b: Seq<CodeRelation>, src: SymbolId, kind: RelationKind, names: Seq<Seq<char>>)
    requires
        rel_extends(a, b),
        has_relations_to(a, src, kind, names),
    ensures
        has_relations_to(b, src, kind, names),
{
    assert forall|k: int| 0 <= k < names.len() implies has_relation(b, src, SymbolId(phantom_id(#[trigger] names[k])), kind) by {
        lemma_relation_extends(a, b, src, SymbolId(phantom_id(names[k])), kind);
    }
}

/// Held tagged relations stay held as the list grows.
pub proof fn lemma_tagged_extends(a: Seq<CodeRelation>, b: Seq<CodeRelation>, src: SymbolId, items: Seq<(RelationKind, Seq<char>)>)
    requires
        rel_extends(a, b),
        has_tagged(a, src, items),
    ensures
        has_tagged(b, src, items),
{
    assert forall|k: int| 0 <= k < items.len() implies has_relation(b, src, SymbolId(phantom_id((#[trigger] items[k]).1)), items[k].0) by {
        lemma_relation_extends(a, b, src, SymbolId(phantom_id(items[k].1)), items[k].0);
    }
}

/// Some node of the tree spans exactly the bytes `[s, e)`.
pub open spec fn in_subtree(node: SyntaxNode, s: usize, e: usize) -> bool
    decreases node,
{
    ||| (node.start_byte == s && node.end_byte == e)
    ||| exists|k: int| 0 <= k < node.children@.len() && in_subtree(#[trigger] node.children@[k], s, e)
}

/// Every symbol of `b` past the first `a.len()` spans a node of the tree
/// rooted at `node`.
pub open spec fn new_from(a: Seq<CodeSymbol>, b: Seq<CodeSymbol>, node: SyntaxNode) -> bool {
    forall|k: int| a.len() <= k < b.len() ==> in_subtree(node, (#[trigger] b[k]).byte_range.start, b[k].byte_range.end)
}

/// Symbols added under a child were added under its parent.
pub proof fn lemma_new_from_child(a: Seq<CodeSymbol>, m: Seq<CodeSymbol>, b: Seq<CodeSymbol>, node: SyntaxNode, i: int)
    requires
        extends(a, m),
        extends(m, b),
        new_from(a, m, node),
        0 <= i < node.children@.len(),
        new_from(m, b, node.children@[i]),
    ensures
        new_from(a, b, node),
{
    assert forall|k: int| a.len() <= k < b.len() implies in_subtree(node, (#[trigger] b[k]).byte_range.start, b[k].byte_range.end) by {
        if k < m.len() {
            assert(b[k] == m[k]);
        } else {
            assert(in_subtree(node.children@[i], b[k].byte_range.start, b[k].byte_range.end));
        }
    }
}

/// Symbols added in two runs under one node were added under it.
pub proof fn lemma_new_from_trans(a: Seq<CodeSymbol>, m: Seq<CodeSymbol>, b: Seq<CodeSymbol>, node: SyntaxNode)
    requires
        extends(a, m),
        extends(m, b),
        new_from(a, m, node),
        new_from(m, b, node),
    ensures
        new_from(a, b, node),
{
    assert forall|k: int| a.len() <= k < b.len() implies in_subtree(node, (#[trigger] b[k]).byte_range.start, b[k].byte_range.end) by {
        if k < m.len() {
            assert(b[k] == m[k]);
        }
    }
}

/// An optional text as plain chars.
pub open spec fn opt_text(o: Option<&str>) -> Option<Seq<char>> {
    match o {
        Some(s) => Some(s@),
        None => None,
    }
}

/// The text a node spans (empty when its bytes are not UTF-8).
pub fn node_text<'a>(ctx: &VisitorContext<'a>, node: &SyntaxNode) -> (r: &'a str)
    requires
        node.start_byte <= node.end_byte <= ctx.source.spec_bytes().len(),
    ensures
        r@ == spec_node_text(ctx.source.spec_bytes(), *node),
{
    let bytes = ctx.source.as_bytes();
    match str_from_utf8(&bytes[node.start_byte..node.end_byte]) {
        Some(s) => s,
        None => {
            proof {
                reveal_strlit("");
            }
            ""
        },
    }
}

/// The first child filling field `name`.
pub open spec fn spec_child_by_field(node: SyntaxNode, name: Seq<char>) -> Option<int> {
    spec_first_field_from(node.children@, name, 0)
}

pub open spec fn spec_first_field_from(ch: Seq<SyntaxNode>, name: Seq<char>, i: int) -> Option<int>
    decreases ch.len() - i,
{
    if i < 0 || i >= ch.len() {
        None
    } else if ch[i].field matches Some(f) && f@ == name {
        Some(i)
    } else {
        spec_first_field_from(ch, name, i + 1)
    }
}

/// The first child filling field `name`, by index.
pub fn child_by_field(node: &SyntaxNode, name: &str) -> (r: Option<usize>)
    ensures
        match r {
            Some(i) => spec_child_by_field(*node, name@) == Some(i as int) && i < node.children@.len(),
            None => spec_child_by_field(*node, name@) is None,
        },
{
    let mut i: usize = 0;
    while i < node.children.len()
        invariant
            i <= node.children@.len(),
            spec_child_by_field(*node, name@) == spec_first_field_from(node.children@, name@, i as int),
        decreases node.children@.len() - i,
    {
        let hit = match &node.children[i].field {
            Some(f) => str_eq(f.as_str(), name),
            None => false,
        };
        if hit {
            return Some(i);
        }
        i = i + 1;
    }
    None
}

/// The first child of kind `kind`, by index.
pub fn first_child_of_kind(node: &SyntaxNode, kind: &str) -> (r: Option<usize>)
    ensures
        r matches Some(i) ==> i < node.children@.len() && node.children@[i as int].kind@ == kind@ && forall|k: int|
            0 <= k < i ==> (#[trigger] node.children@[k]).kind@ != kind@,
        r is None ==> forall|k: int| 0 <= k < node.children@.len() ==> (#[trigger] node.children@[k]).kind@ != kind@,
        match r {
            Some(i) => spec_first_kind_from(node.children@, kind@, 0) == Some(i as int),
            None => spec_first_kind_from(node.children@, kind@, 0) is None,
        },
{
    let mut i: usize = 0;
    while i < node.children.len()
        invariant
            i <= node.children@.len(),
            forall|k: int| 0 <= k < i ==> (#[trigger] node.children@[k]).kind@ != kind@,
            spec_first_kind_from(node.children@, kind@, 0) == spec_first_kind_from(node.children@, kind@, i as int),
        decreases node.children@.len() - i,
    {
        if str_eq(node.children[i].kind.as_str(), kind) {
            return Some(i);
        }
        i = i + 1;
    }
    None
}

/// `q` is the name `n`, or ends in a dot followed by `n`.
pub open spec fn dotted_tail(q: Seq<char>, n: Seq<char>) -> bool {
    ||| q == n
    ||| (q.len() > n.len() && q[q.len() - n.len() - 1] == '.' && q.subrange(q.len() - n.len(), q.len() as int) == n)
}

/// A name joined onto a scope with dots ends in that name.
pub proof fn lemma_join_dotted_tail(scope: Seq<Seq<char>>, n: Seq<char>)
    ensures
        dotted_tail(join_dotted(scope.push(n)), n),
{
    let s = scope.push(n);
    if scope.len() > 0 {
        assert(s.drop_last() =~= scope);
        let q = join_dotted(s);
        assert(q == join_dotted(scope) + seq!['.'] + n);
        assert(q.subrange(q.len() - n.len(), q.len() as int) =~= n);
    }
}

/// A symbol as a visitor makes it: its ID from the repository, the file, its
/// qualified name and its span; its body hash from the spanned bytes; the
/// file's path and language; no body text.
pub open spec fn symbol_ok(s: CodeSymbol, repo: Seq<char>, path: Seq<char>, src: Seq<u8>, lang: Language) -> bool {
    &&& s.id.0 == spec_symbol_id(repo, path, s.qualified_name@, s.byte_range.start as nat, s.byte_range.end as nat)
    &&& s.file_path@ == path
    &&& s.language == lang
    &&& s.byte_range.start <= s.byte_range.end <= src.len()
    &&& s.body_hash == xxh3_128_of(src.subrange(s.byte_range.start as int, s.byte_range.end as int)) as u64
    &&& s.body_text is None
    &&& dotted_tail(s.qualified_name@, s.name@)
}

/// Some symbol of the list has this ID.
pub open spec fn has_symbol_id(syms: Seq<CodeSymbol>, id: SymbolId) -> bool {
    exists|k: int| 0 <= k < syms.len() && (#[trigger] syms[k]).id == id
}

/// The phantom ID of some name.
pub open spec fn is_phantom(id: SymbolId) -> bool {
    exists|t: Seq<char>| id.0 == #[trigger] phantom_id(t)
}

/// A relation as a visitor makes it: observed in the file, from one of the
/// extracted symbols or a phantom, to another extracted symbol when it is
/// containment and to a phantom otherwise.
pub open spec fn relation_ok(r: CodeRelation, syms: Seq<CodeSymbol>, path: Seq<char>) -> bool {
    &&& r.file_path@ == path
    &&& has_symbol_id(syms, r.source_id) || is_phantom(r.source_id)
    &&& r.kind == RelationKind::Contains ==> has_symbol_id(syms, r.target_id)
    &&& r.kind != RelationKind::Contains ==> exists|t: Seq<char>| r.target_id.0 == #[trigger] phantom_id(t)
}

/// `b` begins with the symbols of `a`, in order.
pub open spec fn extends(a: Seq<CodeSymbol>, b: Seq<CodeSymbol>) -> bool {
    &&& a.len() <= b.len()
    &&& forall|k: int| #![trigger a[k]] 0 <= k < a.len() ==> b[k] == a[k]
}

/// An owner of relations: an extracted symbol, or a phantom.
pub open spec fn owner_ok(syms: Seq<CodeSymbol>, id: SymbolId) -> bool {
    has_symbol_id(syms, id) || is_phantom(id)
}

/// Extending a list of symbols keeps every owner.
pub proof fn lemma_extends_owner(a: Seq<CodeSymbol>, b: Seq<CodeSymbol>, id: SymbolId)
    requires
        extends(a, b),
        owner_ok(a, id),
    ensures
        owner_ok(b, id),
{
    if has_symbol_id(a, id) {
        lemma_extends_ids(a, b, id);
    }
}

/// Extending a list of symbols keeps every ID it has.
pub proof fn lemma_extends_ids(a: Seq<CodeSymbol>, b: Seq<CodeSymbol>, id: SymbolId)
    requires
        extends(a, b),
        has_symbol_id(a, id),
    ensures
        has_symbol_id(b, id),
{
    let k = choose|k: int| 0 <= k < a.len() && (#[trigger] a[k]).id == id;
    assert(b[k] == a[k]);
}

/// Symbols and relations extracted from one source file.
#[derive(Debug)]
pub struct ParseOutput {
    pub symbols: Vec<CodeSymbol>,
    pub relations: Vec<CodeRelation>,
}

/// Every symbol and every relation of the output is as a visitor makes it.
pub open spec fn output_ok(out: ParseOutput, repo: Seq<char>, path: Seq<char>, src: Seq<u8>, lang: Language) -> bool {
    &&& forall|i: int| 0 <= i < out.symbols@.len() ==> symbol_ok(#[trigger] out.symbols@[i], repo, path, src, lang)
    &&& forall|i: int| 0 <= i < out.relations@.len() ==> relation_ok(#[trigger] out.relations@[i], out.symbols@, path)
}

/// `r` is a containment of the `i`th symbol by an earlier symbol or a
/// phantom.
pub open spec fn contains_at(r: CodeRelation, syms: Seq<CodeSymbol>, i: int) -> bool {
    &&& r.kind == RelationKind::Contains
    &&& r.target_id == syms[i].id
    &&& owner_ok(syms.take(i), r.source_id)
}

/// Some relation of the list is a containment of the `i`th symbol by an
/// earlier symbol or a phantom.
pub open spec fn contained_at(rels: Seq<CodeRelation>, syms: Seq<CodeSymbol>, i: int) -> bool {
    exists|j: int| 0 <= j < rels.len() && #[trigger] contains_at(rels[j], syms, i)
}

/// Every symbol after the first (the file's module or package) is
/// contained by an earlier symbol or by a phantom.
pub open spec fn all_contained(syms: Seq<CodeSymbol>, rels: Seq<CodeRelation>) -> bool {
    forall|i: int| 1 <= i < syms.len() ==> #[trigger] contained_at(rels, syms, i)
}

/// `all_contained`, kept folded outside this module.
pub closed spec fn contained_ok(syms: Seq<CodeSymbol>, rels: Seq<CodeRelation>) -> bool {
    all_contained(syms, rels)
}

/// What `contained_ok` says.
pub proof fn lemma_contained(syms: Seq<CodeSymbol>, rels: Seq<CodeRelation>)
    requires
        contained_ok(syms, rels),
    ensures
        all_contained(syms, rels),
{
}

/// The output's invariant for this context.
pub open spec fn ctx_ok(out: ParseOutput, ctx: VisitorContext) -> bool {
    &&& output_ok(out, ctx.repo_id@, ctx.file_path@, ctx.source.spec_bytes(), ctx.language)
    &&& contained_ok(out.symbols@, out.relations@)
}

/// What a visit of a node may assume: a sound output, the node within the
/// source, and its owner among the extracted symbols.
pub open spec fn visit_pre(out: ParseOutput, ctx: VisitorContext, node: SyntaxNode, owner: SymbolId) -> bool {
    &&& ctx_ok(out, ctx)
    &&& spans_ok(node, ctx.source.spec_bytes().len())
    &&& owner_ok(out.symbols@, owner)
}

/// What a visit guarantees: a sound output that keeps every earlier symbol.
pub open spec fn visit_post(old_out: ParseOutput, new_out: ParseOutput, ctx: VisitorContext) -> bool {
    &&& ctx_ok(new_out, ctx)
    &&& extends(old_out.symbols@, new_out.symbols@)
    &&& rel_extends(old_out.relations@, new_out.relations@)
}

/// `b` holds every relation of `a` at the same place.
pub open spec fn rel_extends(a: Seq<CodeRelation>, b: Seq<CodeRelation>) -> bool {
    &&& a.len() <= b.len()
    &&& forall|k: int| #![trigger a[k]] 0 <= k < a.len() ==> b[k] == a[k]
}

/// The scope one level further in.
pub fn extend_scope<'s>(scope: &[&'s str], name: &'s str) -> (r: Vec<&'s str>)
    ensures
        r@ == scope@.push(name),
{
    let mut v: Vec<&'s str> = Vec::new();
    let mut i: usize = 0;
    while i < scope.len()
        invariant
            i <= scope@.len(),
            v@ == scope@.take(i as int),
        decreases scope@.len() - i,
    {
        v.push(scope[i]);
        assert(scope@.take(i + 1) =~= scope@.take(i as int).push(scope@[i as int]));
        i = i + 1;
    }
    assert(scope@.take(i as int) =~= scope@);
    v.push(name);
    v
}

impl ParseOutput {
    pub fn new() -> (r: ParseOutput)
        ensures
            r.symbols@.len() == 0,
            r.relations@.len() == 0,
            contained_ok(r.symbols@, r.relations@),
    {
        ParseOutput { symbols: Vec::new(), relations: Vec::new() }
    }

    /// Record the file's module or package symbol, the first of the output;
    /// gives its ID.
    pub fn add_symbol(
        &mut self,
        ctx: &VisitorContext,
        node: &SyntaxNode,
        name: &str,
        qualified_name: String,
        kind: SymbolKind,
        signature: Option<String>,
        doc_comment: Option<String>,
    ) -> (id: SymbolId)
        requires
            ctx_ok(*old(self), *ctx),
            old(self).symbols@.len() == 0,
            qualified_name@ == name@,
            node.start_byte <= node.end_byte <= ctx.source.spec_bytes().len(),
        ensures
            rel_extends(old(self).relations@, final(self).relations@),
            ctx_ok(*final(self), *ctx),
            final(self).relations@ == old(self).relations@,
            final(self).symbols@.len() == 1,
            final(self).symbols@.last().id == id,
            final(self).symbols@.last().name@ == name@,
            final(self).symbols@.last().qualified_name == qualified_name,
            final(self).symbols@.last().kind == kind,
            final(self).symbols@.last().byte_range.start == node.start_byte,
            final(self).symbols@.last().byte_range.end == node.end_byte,
            final(self).symbols@.last().signature == signature,
            final(self).symbols@.last().doc_comment == doc_comment,
            has_symbol_id(final(self).symbols@, id),
            extends(old(self).symbols@, final(self).symbols@),
    {
        self.push_symbol(ctx, node, name, qualified_name, kind, signature, doc_comment)
    }

    /// Record a symbol of the file contained by `parent` (an extracted
    /// symbol or a phantom), with the containment; gives its ID.
    pub fn add_contained(
        &mut self,
        ctx: &VisitorContext,
        node: &SyntaxNode,
        name: &str,
        qualified_name: String,
        kind: SymbolKind,
        signature: Option<String>,
        doc_comment: Option<String>,
        parent: SymbolId,
        line: usize,
    ) -> (id: SymbolId)
        requires
            ctx_ok(*old(self), *ctx),
            owner_ok(old(self).symbols@, parent),
            exists|scope: Seq<Seq<char>>| qualified_name@ == #[trigger] join_dotted(scope.push(name@)),
            node.start_byte <= node.end_byte <= ctx.source.spec_bytes().len(),
        ensures
            rel_extends(old(self).relations@, final(self).relations@),
            ctx_ok(*final(self), *ctx),
            final(self).symbols@.len() == old(self).symbols@.len() + 1,
            final(self).symbols@.drop_last() == old(self).symbols@,
            final(self).symbols@.last().id == id,
            final(self).symbols@.last().name@ == name@,
            final(self).symbols@.last().qualified_name == qualified_name,
            final(self).symbols@.last().kind == kind,
            final(self).symbols@.last().byte_range.start == node.start_byte,
            final(self).symbols@.last().byte_range.end == node.end_byte,
            final(self).symbols@.last().signature == signature,
            final(self).symbols@.last().doc_comment == doc_comment,
            has_symbol_id(final(self).symbols@, id),
            forall|x: SymbolId| has_symbol_id(old(self).symbols@, x) ==> has_symbol_id(final(self).symbols@, x),
            extends(old(self).symbols@, final(self).symbols@),
            final(self).relations@ == old(self).relations@.push(
                CodeRelation {
                    source_id: parent,
                    target_id: id,
                    kind: RelationKind::Contains,
                    file_path: final(self).relations@.last().file_path,
                    line: line as u32,
                },
            ),
    {
        let ghost syms0 = self.symbols@;
        let ghost rels0 = self.relations@;
        proof {
            let scope = choose|scope: Seq<Seq<char>>| qualified_name@ == #[trigger] join_dotted(scope.push(name@));
            lemma_join_dotted_tail(scope, name@);
        }
        let id = self.push_symbol(ctx, node, name, qualified_name, kind, signature, doc_comment);
        proof {
            if has_symbol_id(syms0, parent) {
                lemma_extends_ids(syms0, self.symbols@, parent);
            }
        }
        #[verifier::truncate]
        let l = line as u32;
        let rel = CodeRelation { source_id: parent, target_id: id, kind: RelationKind::Contains, file_path: str_to_string(ctx.file_path), line: l };
        self.relations.push(rel);
        proof {
            let syms = self.symbols@;
            let rels = self.relations@;
            assert forall|i: int| 0 <= i < rels.len() implies relation_ok(#[trigger] rels[i], syms, ctx.file_path@) by {
                if i < rels0.len() {
                    assert(rels[i] == rels0[i]);
                }
            }
            assert forall|i: int| 1 <= i < syms.len() implies #[trigger] contained_at(rels, syms, i) by {
                if i < syms0.len() {
                    assert(contained_at(rels0, syms0, i));
                    let j = choose|j: int| 0 <= j < rels0.len() && #[trigger] contains_at(rels0[j], syms0, i);
                    assert(rels[j] == rels0[j]);
                    assert(syms.take(i) =~= syms0.take(i));
                    assert(syms[i] == syms0[i]);
                    assert(contains_at(rels[j], syms, i));
                } else {
                    assert(syms.take(i) =~= syms0);
                    assert(rels[rels0.len() as int] == rel);
                    assert(contains_at(rels[rels0.len() as int], syms, i));
                }
            }
        }
        id
    }

    /// Push a symbol of the file; the containment invariant is left to the
    /// caller.
    fn push_symbol(
        &mut self,
        ctx: &VisitorContext,
        node: &SyntaxNode,
        name: &str,
        qualified_name: String,
        kind: SymbolKind,
        signature: Option<String>,
        doc_comment: Option<String>,
    ) -> (id: SymbolId)
        requires
            ctx_ok(*old(self), *ctx),
            node.start_byte <= node.end_byte <= ctx.source.spec_bytes().len(),
            dotted_tail(qualified_name@, name@),
        ensures
            output_ok(*final(self), ctx.repo_id@, ctx.file_path@, ctx.source.spec_bytes(), ctx.language),
            final(self).relations@ == old(self).relations@,
            final(self).symbols@.len() == old(self).symbols@.len() + 1,
            final(self).symbols@.drop_last() == old(self).symbols@,
            final(self).symbols@.last().id == id,
            final(self).symbols@.last().name@ == name@,
            final(self).symbols@.last().qualified_name == qualified_name,
            final(self).symbols@.last().kind == kind,
            final(self).symbols@.last().byte_range.start == node.start_byte,
            final(self).symbols@.last().byte_range.end == node.end_byte,
            final(self).symbols@.last().signature == signature,
            final(self).symbols@.last().doc_comment == doc_comment,
            has_symbol_id(final(self).symbols@, id),
            forall|x: SymbolId| has_symbol_id(old(self).symbols@, x) ==> has_symbol_id(final(self).symbols@, x),
            extends(old(self).symbols@, final(self).symbols@),
    {
        let id = SymbolId::generate(ctx.repo_id, ctx.file_path, qualified_name.as_str(), node.start_byte, node.end_byte);
        let bytes = ctx.source.as_bytes();
        let body_hash = compute_body_hash(&bytes[node.start_byte..node.end_byte]);
        #[verifier::truncate]
        let line_start = node.start_row as u32;
        #[verifier::truncate]
        let line_end = node.end_row as u32;
        let sym = CodeSymbol {
            id,
            name: str_to_string(name),
            qualified_name,
            kind,
            language: ctx.language,
            file_path: str_to_string(ctx.file_path),
            byte_range: std::ops::Range { start: node.start_byte, end: node.end_byte },
            line_range: std::ops::Range { start: line_start, end: line_end.wrapping_add(1) },
            signature,
            doc_comment,
            body_hash,
            body_text: None,
        };
        let ghost before = self.symbols@;
        self.symbols.push(sym);
        proof {
            assert(self.symbols@.drop_last() =~= before);
            assert(self.symbols@[before.len() as int] == sym);
            assert forall|k: int| #![trigger before[k]] 0 <= k < before.len() implies self.symbols@[k] == before[k] by {
                assert(self.symbols@[k] == self.symbols@.drop_last()[k]);
            }
            assert forall|x: SymbolId| has_symbol_id(before, x) implies has_symbol_id(self.symbols@, x) by {
                let k = choose|k: int| 0 <= k < before.len() && (#[trigger] before[k]).id == x;
                assert(self.symbols@[k] == before[k]);
            }
            assert forall|i: int| 0 <= i < self.symbols@.len() implies symbol_ok(#[trigger] self.symbols@[i], ctx.repo_id@, ctx.file_path@, ctx.source.spec_bytes(), ctx.language) by {
                if i < before.len() {
                    assert(self.symbols@[i] == before[i]);
                }
            }
            assert forall|i: int| 0 <= i < self.relations@.len() implies relation_ok(#[trigger] self.relations@[i], self.symbols@, ctx.file_path@) by {
                let r = self.relations@[i];
                assert(relation_ok(r, before, ctx.file_path@));
            }
        }
        id
    }

    /// Record a relation observed in the file, from one of its symbols.
    pub fn add_relation(&mut self, ctx: &VisitorContext, source_id: SymbolId, target_id: SymbolId, kind: RelationKind, line: usize)
        requires
            ctx_ok(*old(self), *ctx),
            owner_ok(old(self).symbols@, source_id),
            kind == RelationKind::Contains ==> has_symbol_id(old(self).symbols@, target_id),
            kind != RelationKind::Contains ==> exists|t: Seq<char>| target_id.0 == #[trigger] phantom_id(t),
        ensures
            rel_extends(old(self).relations@, final(self).relations@),
            ctx_ok(*final(self), *ctx),
            final(self).relations@.drop_last() == old(self).relations@,
            final(self).relations@.len() == old(self).relations@.len() + 1,
            final(self).symbols@ == old(self).symbols@,
            extends(old(self).symbols@, final(self).symbols@),
            final(self).relations@ == old(self).relations@.push(
                CodeRelation { source_id, target_id, kind, file_path: final(self).relations@.last().file_path, line: line as u32 },
            ),
    {
        #[verifier::truncate]
        let l = line as u32;
        let rel = CodeRelation { source_id, target_id, kind, file_path: str_to_string(ctx.file_path), line: l };
        let ghost before = self.relations@;
        self.relations.push(rel);
        assert(self.relations@.drop_last() =~= before);
        proof {
            assert forall|i: int| 0 <= i < self.relations@.len() implies relation_ok(#[trigger] self.relations@[i], self.symbols@, ctx.file_path@) by {
                if i < before.len() {
                    assert(self.relations@[i] == before[i]);
                }
            }
            let syms = self.symbols@;
            assert forall|i: int| 1 <= i < syms.len() implies #[trigger] contained_at(self.relations@, syms, i) by {
                assert(contained_at(before, syms, i));
                let j = choose|j: int| 0 <= j < before.len() && #[trigger] contains_at(before[j], syms, i);
                assert(self.relations@[j] == before[j]);
            }
        }
    }
}

/// The phantom ID the parser gives a reference to `name` in another file.
pub fn phantom_of(name: &str) -> (r: SymbolId)
    ensures
        r.0 == phantom_id(name@),
{
    proof {
        reveal_strlit("");
    }
    assert(""@ =~= Seq::<char>::empty());
    SymbolId::generate("", "", name, 0, 0)
}

} // verus!
