//! Symbols and relations of a Rust source file: the module, inline modules,
//! structs, enums, traits and their items, functions, impl blocks and their
//! items, constants and statics, type aliases, `use` imports, trait
//! implementations and calls.
use vstd::prelude::*;
use vstd::string::StringSliceAdditionalSpecFns;
use crate::chunker::SyntaxNode;
use crate::resolver::phantom_id;
use crate::qualified_name::{join_dotted, spec_normalize, str_views, QualifiedName};
use crate::comments::{join_newlines, string_views};
use crate::retrieval::join_lines;
use crate::extract::{
    new_from, in_subtree, lemma_new_from_child, lemma_new_from_trans,
    rel_extends,
    all_spans_ok, child_by_field, ctx_ok, extend_scope, extends, lemma_all_children_spans_ok, lemma_child_spans_ok,
    lemma_extends_owner, node_text, owner_ok, phantom_of, spans_ok, visit_post, visit_pre, ParseOutput, VisitorContext, opt_text, spec_field_text, field_or, field_after, added_named, pushed_relation, appended_to_phantoms, lemma_append_phantom, lemma_append_all, lemma_append_none, spec_node_text, spec_child_by_field, has_symbol, lemma_added_has, lemma_has_extends, has_relation, has_relations_to, lemma_appended_has, lemma_relations_to_extends, lemma_relation_extends, symbol_is};
use crate::fusion::str_starts_with;
use crate::language::{str_eq, Language};
use crate::naming::{qualified_name, rust_module_name, spec_rust_module_name};
use crate::relation::{CodeRelation, RelationKind};
use crate::symbol::{CodeSymbol, SymbolId, SymbolKind};
use crate::text::{chars_of, spec_trim, string_from_chars, string_push, string_push_str, str_to_string, trim_vec};
use crate::typescript::sib_pre;

verus! {

/// The chars of `s` before the first `c` (all of them when there is none).
pub open spec fn chars_before(s: Seq<char>, c: char) -> Seq<char>
    decreases s.len(),
{
    if s.len() == 0 || s[0] == c {
        Seq::empty()
    } else {
        seq![s[0]] + chars_before(s.drop_first(), c)
    }
}

pub proof fn lemma_chars_before(s: Seq<char>, c: char, i: int)
    requires
        0 <= i <= s.len(),
        forall|j: int| 0 <= j < i ==> s[j] != c,
        i == s.len() || s[i] == c,
    ensures
        chars_before(s, c) == s.take(i),
    decreases i,
{
    if i > 0 {
        lemma_chars_before(s.drop_first(), c, i - 1);
        assert(s.take(i) =~= seq![s[0]] + s.drop_first().take(i - 1));
    }
}

/// The chars of a type or trait name before its generic arguments, trimmed
/// (`split('<').next()`, then `trim`).
pub fn name_before_generics(text: &str) -> (r: String)
    ensures
        r@ == spec_trim(chars_before(text@, '<')),
{
    let cs = chars_of(text);
    let mut head: Vec<char> = Vec::new();
    let mut i: usize = 0;
    while i < cs.len() && cs[i] != '<'
        invariant
            i <= cs@.len(),
            cs@ == text@,
            head@ == cs@.take(i as int),
            forall|j: int| 0 <= j < i ==> cs@[j] != '<',
        decreases cs@.len() - i,
    {
        head.push(cs[i]);
        i = i + 1;
        assert(head@ =~= cs@.take(i as int));
    }
    proof {
        lemma_chars_before(cs@, '<', i as int);
    }
    let t = trim_vec(&head);
    string_from_chars(&t)
}

/// The text after a three-char prefix, trimmed.
fn after_prefix_trimmed(text: &str) -> (r: String)
    ensures
        r@ == spec_trim(if text@.len() > 3 { text@.skip(3) } else { Seq::empty() }),
{
    let cs = chars_of(text);
    let mut rest: Vec<char> = Vec::new();
    let mut i: usize = 3;
    while i < cs.len()
        invariant
            3 <= i,
            cs@ == text@,
            cs@.len() >= 3 ==> i <= cs@.len() && rest@ == cs@.subrange(3, i as int),
            cs@.len() < 3 ==> rest@.len() == 0,
        decreases cs@.len() - i,
    {
        rest.push(cs[i]);
        i = i + 1;
        assert(rest@ =~= cs@.subrange(3, i as int));
    }
    assert(text@.len() > 3 ==> rest@ =~= text@.skip(3));
    assert(text@.len() <= 3 ==> rest@ =~= Seq::<char>::empty());
    let t = trim_vec(&rest);
    string_from_chars(&t)
}

/// The `///` or `//!` lines among `sibs[..j]` that run up to `j`,
/// attributes in between skipped, each trimmed, in source order.
pub open spec fn rust_doc_lines(src: Seq<u8>, sibs: Seq<SyntaxNode>, j: int) -> Seq<Seq<char>>
    decreases j,
{
    if j <= 0 || j > sibs.len() {
        Seq::empty()
    } else if sibs[j - 1].kind@ == "line_comment"@ {
        let t = spec_node_text(src, sibs[j - 1]);
        if "///"@.is_prefix_of(t) || "//!"@.is_prefix_of(t) {
            rust_doc_lines(src, sibs, j - 1).push(spec_trim(if t.len() > 3 { t.skip(3) } else { Seq::empty() }))
        } else {
            Seq::empty()
        }
    } else if sibs[j - 1].kind@ == "attribute_item"@ {
        rust_doc_lines(src, sibs, j - 1)
    } else {
        Seq::empty()
    }
}

/// The `///` or `//!` lines right before the item at `idx`, attributes in
/// between skipped, each trimmed, in source order and joined.
fn extract_doc_comment(ctx: &VisitorContext, sibs: &Vec<SyntaxNode>, idx: usize) -> (r: Option<String>)
    requires
        idx < sibs@.len(),
        all_spans_ok(sibs@, ctx.source.spec_bytes().len()),
    ensures
        r matches Some(d) ==> rust_doc_lines(ctx.source.spec_bytes(), sibs@, idx as int).len() > 0
            && d@ == join_lines(rust_doc_lines(ctx.source.spec_bytes(), sibs@, idx as int)),
        r is None ==> rust_doc_lines(ctx.source.spec_bytes(), sibs@, idx as int).len() == 0,
{
    let ghost src = ctx.source.spec_bytes();
    let mut rev: Vec<String> = Vec::new();
    let mut j: usize = idx;
    let mut stopped = false;
    while j > 0 && !stopped
        invariant
            j <= idx < sibs@.len(),
            src == ctx.source.spec_bytes(),
            all_spans_ok(sibs@, ctx.source.spec_bytes().len()),
            stopped ==> rust_doc_lines(src, sibs@, j as int).len() == 0,
            rust_doc_lines(src, sibs@, idx as int) == rust_doc_lines(src, sibs@, j as int) + string_views(rev@).reverse(),
        decreases j + (if stopped { 0int } else { 1int }),
    {
        let sib = &sibs[j - 1];
        if str_eq(sib.kind.as_str(), "line_comment") {
            let text = node_text(ctx, sib);
            if str_starts_with(text, "///") || str_starts_with(text, "//!") {
                let line = after_prefix_trimmed(text);
                let ghost before = string_views(rev@);
                rev.push(line);
                proof {
                    assert(string_views(rev@) =~= before.push(line@));
                    assert(string_views(rev@).reverse() =~= seq![line@] + before.reverse());
                    assert(rust_doc_lines(src, sibs@, j as int) == rust_doc_lines(src, sibs@, j - 1).push(line@));
                    assert(rust_doc_lines(src, sibs@, j - 1).push(line@) + before.reverse()
                        =~= rust_doc_lines(src, sibs@, j - 1) + string_views(rev@).reverse());
                }
                j = j - 1;
            } else {
                stopped = true;
            }
        } else if !str_eq(sib.kind.as_str(), "attribute_item") {
            stopped = true;
        } else {
            j = j - 1;
        }
    }
    proof {
        assert(rust_doc_lines(src, sibs@, j as int).len() == 0);
        assert(rust_doc_lines(src, sibs@, idx as int) =~= string_views(rev@).reverse());
    }
    if rev.len() == 0 {
        return None;
    }
    let mut lines: Vec<String> = Vec::new();
    let mut k: usize = rev.len();
    while k > 0
        invariant
            k <= rev@.len(),
            string_views(lines@) =~= string_views(rev@).reverse().take(rev@.len() - k),
        decreases k,
    {
        let ghost before = string_views(lines@);
        let line = rev[k - 1].clone();
        lines.push(line);
        proof {
            assert(string_views(lines@) =~= before.push(line@));
            assert(string_views(rev@).reverse()[rev@.len() - k] == string_views(rev@)[k - 1]);
            assert(string_views(lines@) =~= string_views(rev@).reverse().take(rev@.len() - k + 1));
        }
        k = k - 1;
    }
    assert(string_views(rev@).reverse().take(rev@.len() as int) =~= string_views(rev@).reverse());
    Some(join_newlines(&lines))
}

/// `keyword name`.
fn keyword_signature(keyword: &str, name: &str) -> (r: String)
    ensures
        r@ == keyword@ + seq![' '] + name@,
{
    let mut sig = str_to_string(keyword);
    string_push(&mut sig, ' ');
    string_push_str(&mut sig, name);
    sig
}

/// `fn name(params) -> ret`.
fn build_fn_signature(ctx: &VisitorContext, node: &SyntaxNode, name: &str) -> (r: String)
    requires
        spans_ok(*node, ctx.source.spec_bytes().len()),
    ensures
        r@ == "fn "@ + name@ + field_or(ctx.source.spec_bytes(), *node, "parameters"@, "()"@) + field_after(
            ctx.source.spec_bytes(),
            *node,
            "return_type"@,
            " -> "@,
        ),
{
    let len = Ghost(ctx.source.spec_bytes().len());
    let mut sig = str_to_string("fn ");
    string_push_str(&mut sig, name);
    match child_by_field(node, "parameters") {
        Some(p) => {
            proof {
                lemma_child_spans_ok(*node, len@, p as int);
            }
            string_push_str(&mut sig, node_text(ctx, &node.children[p]));
        },
        None => string_push_str(&mut sig, "()"),
    }
    if let Some(rt) = child_by_field(node, "return_type") {
        proof {
            lemma_child_spans_ok(*node, len@, rt as int);
        }
        string_push_str(&mut sig, " -> ");
        string_push_str(&mut sig, node_text(ctx, &node.children[rt]));
    }
    sig
}

/// The text of the field `name` of the node, if it has one.
fn field_text<'a>(ctx: &VisitorContext<'a>, node: &SyntaxNode, name: &str) -> (r: Option<&'a str>)
    requires
        spans_ok(*node, ctx.source.spec_bytes().len()),
    ensures
        opt_text(r) == spec_field_text(ctx.source.spec_bytes(), *node, name@),
{
    match child_by_field(node, name) {
        Some(i) => {
            proof {
                lemma_child_spans_ok(*node, ctx.source.spec_bytes().len(), i as int);
            }
            Some(node_text(ctx, &node.children[i]))
        },
        None => None,
    }
}

/// Extract the symbols and relations of a Rust file from its syntax tree.
/// The first symbol is the module, spanning the whole tree.
pub fn extract(ctx: &VisitorContext, root: &SyntaxNode) -> (out: ParseOutput)
    requires
        spans_ok(*root, ctx.source.spec_bytes().len()),
    ensures
        ctx_ok(out, *ctx),
        new_from(Seq::empty(), out.symbols@, *root),
        out.symbols@.len() >= 1,
        out.symbols@[0].name@ == spec_rust_module_name(ctx.file_path@),
        out.symbols@[0].qualified_name@ == spec_rust_module_name(ctx.file_path@),
        out.symbols@[0].kind == SymbolKind::Module,
        out.symbols@[0].byte_range.start == root.start_byte,
        out.symbols@[0].byte_range.end == root.end_byte,
        rust_items_deep(
            ctx.source.spec_bytes(),
            out.symbols@,
            out.relations@,
            *root,
            seq![spec_rust_module_name(ctx.file_path@)],
            out.symbols@[0].id,
        ),
{
    let mut out = ParseOutput::new();
    let module_name = rust_module_name(ctx.file_path);
    let module_qname = module_name.clone();
    let module_id = out.add_symbol(ctx, root, module_name.as_str(), module_qname, SymbolKind::Module, None, None);
    let ghost first = out.symbols@[0];
    let scope = vec![module_name.as_str()];
    assert(str_views(scope@) =~= seq![spec_rust_module_name(ctx.file_path@)]);
    assert(module_id == first.id);
    let ghost added = out.symbols@;
    assert(new_from(Seq::empty(), added, *root));
    extract_items(ctx, root, scope.as_slice(), module_id, &mut out);
    proof {
        lemma_new_from_trans(Seq::empty(), added, out.symbols@, *root);
    }
    assert(out.symbols@[0] == first);
    out
}

/// The item kinds a Rust visitor tells apart are distinct.
pub proof fn lemma_rust_kinds_distinct()
    ensures
        "mod_item"@ != "struct_item"@,
        "mod_item"@ != "enum_item"@,
        "mod_item"@ != "trait_item"@,
        "mod_item"@ != "function_item"@,
        "mod_item"@ != "impl_item"@,
        "mod_item"@ != "const_item"@,
        "mod_item"@ != "static_item"@,
        "mod_item"@ != "type_item"@,
        "mod_item"@ != "use_declaration"@,
        "mod_item"@ != "function_signature_item"@,
        "struct_item"@ != "enum_item"@,
        "struct_item"@ != "trait_item"@,
        "struct_item"@ != "function_item"@,
        "struct_item"@ != "impl_item"@,
        "struct_item"@ != "const_item"@,
        "struct_item"@ != "static_item"@,
        "struct_item"@ != "type_item"@,
        "struct_item"@ != "use_declaration"@,
        "struct_item"@ != "function_signature_item"@,
        "enum_item"@ != "trait_item"@,
        "enum_item"@ != "function_item"@,
        "enum_item"@ != "impl_item"@,
        "enum_item"@ != "const_item"@,
        "enum_item"@ != "static_item"@,
        "enum_item"@ != "type_item"@,
        "enum_item"@ != "use_declaration"@,
        "enum_item"@ != "function_signature_item"@,
        "trait_item"@ != "function_item"@,
        "trait_item"@ != "impl_item"@,
        "trait_item"@ != "const_item"@,
        "trait_item"@ != "static_item"@,
        "trait_item"@ != "type_item"@,
        "trait_item"@ != "use_declaration"@,
        "trait_item"@ != "function_signature_item"@,
        "function_item"@ != "impl_item"@,
        "function_item"@ != "const_item"@,
        "function_item"@ != "static_item"@,
        "function_item"@ != "type_item"@,
        "function_item"@ != "use_declaration"@,
        "function_item"@ != "function_signature_item"@,
        "impl_item"@ != "const_item"@,
        "impl_item"@ != "static_item"@,
        "impl_item"@ != "type_item"@,
        "impl_item"@ != "use_declaration"@,
        "impl_item"@ != "function_signature_item"@,
        "const_item"@ != "static_item"@,
        "const_item"@ != "type_item"@,
        "const_item"@ != "use_declaration"@,
        "const_item"@ != "function_signature_item"@,
        "static_item"@ != "type_item"@,
        "static_item"@ != "use_declaration"@,
        "static_item"@ != "function_signature_item"@,
        "type_item"@ != "use_declaration"@,
        "type_item"@ != "function_signature_item"@,
        "use_declaration"@ != "function_signature_item"@,
{
    reveal_strlit("mod_item");
    reveal_strlit("struct_item");
    reveal_strlit("enum_item");
    reveal_strlit("trait_item");
    reveal_strlit("function_item");
    reveal_strlit("impl_item");
    reveal_strlit("const_item");
    reveal_strlit("static_item");
    reveal_strlit("type_item");
    reveal_strlit("use_declaration");
    reveal_strlit("function_signature_item");
    assert("mod_item"@.len() != "struct_item"@.len());
    assert("mod_item"@.len() != "enum_item"@.len());
    assert("mod_item"@.len() != "trait_item"@.len());
    assert("mod_item"@.len() != "function_item"@.len());
    assert("mod_item"@.len() != "impl_item"@.len());
    assert("mod_item"@.len() != "const_item"@.len());
    assert("mod_item"@.len() != "static_item"@.len());
    assert("mod_item"@.len() != "type_item"@.len());
    assert("mod_item"@.len() != "use_declaration"@.len());
    assert("mod_item"@.len() != "function_signature_item"@.len());
    assert("struct_item"@.len() != "enum_item"@.len());
    assert("struct_item"@.len() != "trait_item"@.len());
    assert("struct_item"@.len() != "function_item"@.len());
    assert("struct_item"@.len() != "impl_item"@.len());
    assert("struct_item"@.len() != "const_item"@.len());
    assert("struct_item"@[2] != "static_item"@[2]);
    assert("struct_item"@.len() != "type_item"@.len());
    assert("struct_item"@.len() != "use_declaration"@.len());
    assert("struct_item"@.len() != "function_signature_item"@.len());
    assert("enum_item"@.len() != "trait_item"@.len());
    assert("enum_item"@.len() != "function_item"@.len());
    assert("enum_item"@[0] != "impl_item"@[0]);
    assert("enum_item"@.len() != "const_item"@.len());
    assert("enum_item"@.len() != "static_item"@.len());
    assert("enum_item"@[0] != "type_item"@[0]);
    assert("enum_item"@.len() != "use_declaration"@.len());
    assert("enum_item"@.len() != "function_signature_item"@.len());
    assert("trait_item"@.len() != "function_item"@.len());
    assert("trait_item"@.len() != "impl_item"@.len());
    assert("trait_item"@[0] != "const_item"@[0]);
    assert("trait_item"@.len() != "static_item"@.len());
    assert("trait_item"@.len() != "type_item"@.len());
    assert("trait_item"@.len() != "use_declaration"@.len());
    assert("trait_item"@.len() != "function_signature_item"@.len());
    assert("function_item"@.len() != "impl_item"@.len());
    assert("function_item"@.len() != "const_item"@.len());
    assert("function_item"@.len() != "static_item"@.len());
    assert("function_item"@.len() != "type_item"@.len());
    assert("function_item"@.len() != "use_declaration"@.len());
    assert("function_item"@.len() != "function_signature_item"@.len());
    assert("impl_item"@.len() != "const_item"@.len());
    assert("impl_item"@.len() != "static_item"@.len());
    assert("impl_item"@[0] != "type_item"@[0]);
    assert("impl_item"@.len() != "use_declaration"@.len());
    assert("impl_item"@.len() != "function_signature_item"@.len());
    assert("const_item"@.len() != "static_item"@.len());
    assert("const_item"@.len() != "type_item"@.len());
    assert("const_item"@.len() != "use_declaration"@.len());
    assert("const_item"@.len() != "function_signature_item"@.len());
    assert("static_item"@.len() != "type_item"@.len());
    assert("static_item"@.len() != "use_declaration"@.len());
    assert("static_item"@.len() != "function_signature_item"@.len());
    assert("type_item"@.len() != "use_declaration"@.len());
    assert("type_item"@.len() != "function_signature_item"@.len());
    assert("use_declaration"@.len() != "function_signature_item"@.len());
}

/// The symbol an item of a source file or module makes for itself, when it
/// has a name (a non-empty one for functions, constants, statics and type
/// aliases): the name and its kind.
pub open spec fn rust_item_symbol(src: Seq<u8>, c: SyntaxNode) -> Option<(Seq<char>, SymbolKind)> {
    let k = c.kind@;
    match spec_field_text(src, c, "name"@) {
        None => None,
        Some(n) => if k == "mod_item"@ {
            Some((n, SymbolKind::Module))
        } else if k == "struct_item"@ {
            Some((n, SymbolKind::Struct))
        } else if k == "enum_item"@ {
            Some((n, SymbolKind::Enum))
        } else if k == "trait_item"@ {
            Some((n, SymbolKind::Trait))
        } else if n.len() == 0 {
            None
        } else if k == "function_item"@ {
            Some((n, SymbolKind::Function))
        } else if k == "const_item"@ || k == "static_item"@ {
            Some((n, SymbolKind::Constant))
        } else if k == "type_item"@ {
            Some((n, SymbolKind::TypeAlias))
        } else {
            None
        },
    }
}

/// The symbol an item of a trait or impl body makes, when it has a
/// non-empty name: methods (in a trait, bare signatures too), constants
/// and type aliases.
pub open spec fn rust_body_symbol(src: Seq<u8>, c: SyntaxNode, in_trait: bool) -> Option<(Seq<char>, SymbolKind)> {
    let k = c.kind@;
    match spec_field_text(src, c, "name"@) {
        Some(n) => if n.len() == 0 {
            None
        } else if k == "function_item"@ || (in_trait && k == "function_signature_item"@) {
            Some((n, SymbolKind::Method))
        } else if k == "const_item"@ {
            Some((n, SymbolKind::Constant))
        } else if k == "type_item"@ {
            Some((n, SymbolKind::TypeAlias))
        } else {
            None
        },
        None => None,
    }
}

/// The calls a function item makes, from its symbol `id`: one to each
/// callee in its body.
pub open spec fn rust_fn_calls(src: Seq<u8>, rels: Seq<CodeRelation>, c: SyntaxNode, id: SymbolId) -> bool {
    c.kind@ == "function_item"@ ==> (spec_child_by_field(c, "body"@) matches Some(b) ==> (0 <= b < c.children@.len()
        ==> has_relations_to(rels, id, RelationKind::Calls, rust_calls_names(src, c.children@[b]))))
}

/// `syms` holds the symbol a body item makes, if any, and `rels` the calls
/// from it.
pub open spec fn rust_body_held(
    src: Seq<u8>,
    syms: Seq<CodeSymbol>,
    rels: Seq<CodeRelation>,
    c: SyntaxNode,
    scope: Seq<Seq<char>>,
    in_trait: bool,
) -> bool {
    match rust_body_symbol(src, c, in_trait) {
        Some(t) => exists|k: int|
            0 <= k < syms.len() && symbol_is(#[trigger] syms[k], t.0, join_dotted(scope.push(t.0)), t.1, c) && rust_fn_calls(
                src,
                rels,
                c,
                syms[k].id,
            ),
        None => true,
    }
}

/// `syms` and `rels` hold what each item of `body` declares.
pub open spec fn rust_body_items_held(
    src: Seq<u8>,
    syms: Seq<CodeSymbol>,
    rels: Seq<CodeRelation>,
    body: SyntaxNode,
    scope: Seq<Seq<char>>,
    in_trait: bool,
) -> bool {
    forall|j: int| 0 <= j < body.children@.len() ==> rust_body_held(src, syms, rels, #[trigger] body.children@[j], scope, in_trait)
}

/// The name an impl block's items are scoped under: its type's text
/// before any generic arguments, trimmed; none when the type is missing
/// or empty.
pub open spec fn rust_impl_type(src: Seq<u8>, node: SyntaxNode) -> Option<Seq<char>> {
    match spec_field_text(src, node, "type"@) {
        Some(t) => if t.len() > 0 { Some(spec_trim(chars_before(t, '<'))) } else { None },
        None => None,
    }
}

/// What an impl block declares: an implementation of its trait (by name,
/// before generic arguments) by the phantom of its type, and each item of
/// its body scoped under the type.
pub open spec fn rust_impl_held(src: Seq<u8>, syms: Seq<CodeSymbol>, rels: Seq<CodeRelation>, node: SyntaxNode, scope: Seq<Seq<char>>) -> bool {
    rust_impl_type(src, node) matches Some(ty) ==> {
        &&& (spec_field_text(src, node, "trait"@) matches Some(tr) ==> (spec_trim(chars_before(tr, '<')).len() > 0 ==> has_relation(
            rels,
            SymbolId(phantom_id(join_dotted(scope.push(ty)))),
            SymbolId(phantom_id(spec_trim(chars_before(tr, '<')))),
            RelationKind::Implements,
        )))
        &&& (spec_child_by_field(node, "body"@) matches Some(b) ==> rust_body_items_held(
            src,
            syms,
            rels,
            node.children@[b],
            scope.push(ty),
            false,
        ))
    }
}

/// What comes with the symbol `id` of an item, scoped in `inner`: a
/// module's items (owned by it), a trait's items, a function's calls.
pub open spec fn rust_item_body(
    src: Seq<u8>,
    syms: Seq<CodeSymbol>,
    rels: Seq<CodeRelation>,
    c: SyntaxNode,
    inner: Seq<Seq<char>>,
    id: SymbolId,
) -> bool
    decreases c, 0int,
{
    &&& rust_fn_calls(src, rels, c, id)
    &&& match spec_child_by_field(c, "body"@) {
        Some(b) => if 0 <= b < c.children@.len() {
            if c.kind@ == "mod_item"@ {
                rust_items_deep(src, syms, rels, c.children@[b], inner, id)
            } else if c.kind@ == "trait_item"@ {
                rust_body_items_held(src, syms, rels, c.children@[b], inner, true)
            } else {
                true
            }
        } else {
            true
        },
        None => true,
    }
}

/// `syms` and `rels` hold what an item of a source file or module
/// declares: its own symbol with what comes with it, an impl block's
/// implementation and items, or an import from `owner` of a `use` path in
/// canonical form.
pub open spec fn rust_item_held(
    src: Seq<u8>,
    syms: Seq<CodeSymbol>,
    rels: Seq<CodeRelation>,
    c: SyntaxNode,
    scope: Seq<Seq<char>>,
    owner: SymbolId,
) -> bool
    decreases c, 1int,
{
    if c.kind@ == "impl_item"@ {
        rust_impl_held(src, syms, rels, c, scope)
    } else if c.kind@ == "use_declaration"@ {
        spec_field_text(src, c, "argument"@) matches Some(p) ==> has_relation(
            rels,
            owner,
            SymbolId(phantom_id(spec_normalize(p, Language::Rust))),
            RelationKind::Imports,
        )
    } else {
        match rust_item_symbol(src, c) {
            Some(t) => exists|k: int|
                0 <= k < syms.len() && symbol_is(#[trigger] syms[k], t.0, join_dotted(scope.push(t.0)), t.1, c) && rust_item_body(
                    src,
                    syms,
                    rels,
                    c,
                    scope.push(t.0),
                    syms[k].id,
                ),
            None => true,
        }
    }
}

/// `syms` and `rels` hold what each item of a source file or module body
/// declares, with `owner` as the importer.
pub open spec fn rust_items_deep(
    src: Seq<u8>,
    syms: Seq<CodeSymbol>,
    rels: Seq<CodeRelation>,
    node: SyntaxNode,
    scope: Seq<Seq<char>>,
    owner: SymbolId,
) -> bool
    decreases node, 2int,
{
    forall|j: int| 0 <= j < node.children@.len() ==> rust_item_held(src, syms, rels, #[trigger] node.children@[j], scope, owner)
}

/// What a body item declares stays held as the lists grow.
pub proof fn lemma_rust_body_held_extends(
    src: Seq<u8>,
    a: Seq<CodeSymbol>,
    b: Seq<CodeSymbol>,
    ra: Seq<CodeRelation>,
    rb: Seq<CodeRelation>,
    c: SyntaxNode,
    scope: Seq<Seq<char>>,
    in_trait: bool,
)
    requires
        extends(a, b),
        rel_extends(ra, rb),
        rust_body_held(src, a, ra, c, scope, in_trait),
    ensures
        rust_body_held(src, b, rb, c, scope, in_trait),
{
    match rust_body_symbol(src, c, in_trait) {
        Some(t) => {
            let k = choose|k: int|
                0 <= k < a.len() && symbol_is(#[trigger] a[k], t.0, join_dotted(scope.push(t.0)), t.1, c) && rust_fn_calls(
                    src,
                    ra,
                    c,
                    a[k].id,
                );
            assert(b[k] == a[k]);
            lemma_rust_fn_calls_extends(src, ra, rb, c, a[k].id);
        },
        None => {},
    }
}

/// A function's calls stay held as the list grows.
pub proof fn lemma_rust_fn_calls_extends(src: Seq<u8>, ra: Seq<CodeRelation>, rb: Seq<CodeRelation>, c: SyntaxNode, id: SymbolId)
    requires
        rel_extends(ra, rb),
        rust_fn_calls(src, ra, c, id),
    ensures
        rust_fn_calls(src, rb, c, id),
{
    if c.kind@ == "function_item"@ {
        match spec_child_by_field(c, "body"@) {
            Some(x) => if 0 <= x < c.children@.len() {
                lemma_relations_to_extends(ra, rb, id, RelationKind::Calls, rust_calls_names(src, c.children@[x]));
            },
            None => {},
        }
    }
}

/// A body's items stay held as the lists grow.
pub proof fn lemma_rust_body_extends(
    src: Seq<u8>,
    a: Seq<CodeSymbol>,
    b: Seq<CodeSymbol>,
    ra: Seq<CodeRelation>,
    rb: Seq<CodeRelation>,
    body: SyntaxNode,
    scope: Seq<Seq<char>>,
    in_trait: bool,
)
    requires
        extends(a, b),
        rel_extends(ra, rb),
        rust_body_items_held(src, a, ra, body, scope, in_trait),
    ensures
        rust_body_items_held(src, b, rb, body, scope, in_trait),
{
    assert forall|j: int| 0 <= j < body.children@.len() implies rust_body_held(src, b, rb, #[trigger] body.children@[j], scope, in_trait) by {
        lemma_rust_body_held_extends(src, a, b, ra, rb, body.children@[j], scope, in_trait);
    }
}

/// What comes with an item's symbol stays held as the lists grow.
pub proof fn lemma_rust_item_body_extends(
    src: Seq<u8>,
    a: Seq<CodeSymbol>,
    b: Seq<CodeSymbol>,
    ra: Seq<CodeRelation>,
    rb: Seq<CodeRelation>,
    c: SyntaxNode,
    inner: Seq<Seq<char>>,
    id: SymbolId,
)
    requires
        extends(a, b),
        rel_extends(ra, rb),
        rust_item_body(src, a, ra, c, inner, id),
    ensures
        rust_item_body(src, b, rb, c, inner, id),
    decreases c, 0int,
{
    lemma_rust_fn_calls_extends(src, ra, rb, c, id);
    match spec_child_by_field(c, "body"@) {
        Some(bi) => if 0 <= bi < c.children@.len() {
            if c.kind@ == "mod_item"@ {
                lemma_rust_items_deep_extends(src, a, b, ra, rb, c.children@[bi], inner, id);
            } else if c.kind@ == "trait_item"@ {
                lemma_rust_body_extends(src, a, b, ra, rb, c.children@[bi], inner, true);
            }
        },
        None => {},
    }
}

/// What an item declares stays held as the lists grow.
pub proof fn lemma_rust_item_extends(
    src: Seq<u8>,
    a: Seq<CodeSymbol>,
    b: Seq<CodeSymbol>,
    ra: Seq<CodeRelation>,
    rb: Seq<CodeRelation>,
    c: SyntaxNode,
    scope: Seq<Seq<char>>,
    owner: SymbolId,
)
    requires
        extends(a, b),
        rel_extends(ra, rb),
        rust_item_held(src, a, ra, c, scope, owner),
    ensures
        rust_item_held(src, b, rb, c, scope, owner),
    decreases c, 1int,
{
    if c.kind@ == "impl_item"@ {
        if let Some(ty) = rust_impl_type(src, c) {
            match spec_field_text(src, c, "trait"@) {
                Some(tr) => if spec_trim(chars_before(tr, '<')).len() > 0 {
                    lemma_relation_extends(
                        ra,
                        rb,
                        SymbolId(phantom_id(join_dotted(scope.push(ty)))),
                        SymbolId(phantom_id(spec_trim(chars_before(tr, '<')))),
                        RelationKind::Implements,
                    );
                },
                None => {},
            }
            if spec_child_by_field(c, "body"@) is Some {
                lemma_rust_body_extends(src, a, b, ra, rb, c.children@[spec_child_by_field(c, "body"@)->0], scope.push(ty), false);
            }
        }
    } else if c.kind@ == "use_declaration"@ {
        match spec_field_text(src, c, "argument"@) {
            Some(p) => lemma_relation_extends(ra, rb, owner, SymbolId(phantom_id(spec_normalize(p, Language::Rust))), RelationKind::Imports),
            None => {},
        }
    } else {
        match rust_item_symbol(src, c) {
            Some(t) => {
                let k = choose|k: int|
                    0 <= k < a.len() && symbol_is(#[trigger] a[k], t.0, join_dotted(scope.push(t.0)), t.1, c) && rust_item_body(
                        src,
                        a,
                        ra,
                        c,
                        scope.push(t.0),
                        a[k].id,
                    );
                assert(b[k] == a[k]);
                lemma_rust_item_body_extends(src, a, b, ra, rb, c, scope.push(t.0), a[k].id);
            },
            None => {},
        }
    }
}

/// What a module body declares stays held as the lists grow.
pub proof fn lemma_rust_items_deep_extends(
    src: Seq<u8>,
    a: Seq<CodeSymbol>,
    b: Seq<CodeSymbol>,
    ra: Seq<CodeRelation>,
    rb: Seq<CodeRelation>,
    node: SyntaxNode,
    scope: Seq<Seq<char>>,
    owner: SymbolId,
)
    requires
        extends(a, b),
        rel_extends(ra, rb),
        rust_items_deep(src, a, ra, node, scope, owner),
    ensures
        rust_items_deep(src, b, rb, node, scope, owner),
    decreases node, 2int,
{
    assert forall|j: int| 0 <= j < node.children@.len() implies rust_item_held(src, b, rb, #[trigger] node.children@[j], scope, owner) by {
        lemma_rust_item_extends(src, a, b, ra, rb, node.children@[j], scope, owner);
    }
}

/// The items of a source file or inline module.
fn extract_items<'a, 's>(
    ctx: &VisitorContext<'a>,
    parent: &SyntaxNode,
    scope: &[&'s str],
    scope_id: SymbolId,
    out: &mut ParseOutput,
) where 'a: 's
    requires
        visit_pre(*old(out), *ctx, *parent, scope_id),
    ensures
        visit_post(*old(out), *final(out), *ctx),
        new_from(old(out).symbols@, final(out).symbols@, *parent),
        rust_items_deep(ctx.source.spec_bytes(), final(out).symbols@, final(out).relations@, *parent, str_views(scope@), scope_id),
    decreases *parent,
{
    let ghost len = ctx.source.spec_bytes().len();
    let ghost src = ctx.source.spec_bytes();
    let ghost sv = str_views(scope@);
    let ghost start = out.symbols@;
    proof {
        lemma_all_children_spans_ok(*parent, len);
    }
    let sibs = &parent.children;
    let mut i: usize = 0;
    while i < sibs.len()
        invariant
            sibs == &parent.children,
            i <= sibs@.len(),
            len == ctx.source.spec_bytes().len(),
            all_spans_ok(sibs@, len),
            ctx_ok(*out, *ctx),
            new_from(old(out).symbols@, out.symbols@, *parent),
            rel_extends(old(out).relations@, out.relations@),
            extends(start, out.symbols@),
            start == old(out).symbols@,
            owner_ok(out.symbols@, scope_id),
            src == ctx.source.spec_bytes(),
            sv == str_views(scope@),
            forall|j: int| 0 <= j < i ==> rust_item_held(src, out.symbols@, out.relations@, #[trigger] sibs@[j], sv, scope_id),
        decreases sibs@.len() - i,
    {
        let child = &sibs[i];
        let ghost before = out.symbols@;
        let ghost rbefore = out.relations@;
        proof {
            lemma_rust_kinds_distinct();
        }
        let k = child.kind.as_str();
        if str_eq(k, "mod_item") {
            extract_mod(ctx, sibs, i, scope, scope_id, out);
        } else if str_eq(k, "struct_item") {
            extract_keyword_item(ctx, sibs, i, scope, scope_id, SymbolKind::Struct, "struct", out);
            proof {
                let kk = before.len() as int;
                match rust_item_symbol(src, *child) {
                    Some(t) => {
                        assert(symbol_is(out.symbols@[kk], t.0, join_dotted(sv.push(t.0)), t.1, *child));
                        assert(rust_item_body(src, out.symbols@, out.relations@, *child, sv.push(t.0), out.symbols@[kk].id));
                    },
                    None => {},
                }
            }
        } else if str_eq(k, "enum_item") {
            extract_keyword_item(ctx, sibs, i, scope, scope_id, SymbolKind::Enum, "enum", out);
            proof {
                let kk = before.len() as int;
                match rust_item_symbol(src, *child) {
                    Some(t) => {
                        assert(symbol_is(out.symbols@[kk], t.0, join_dotted(sv.push(t.0)), t.1, *child));
                        assert(rust_item_body(src, out.symbols@, out.relations@, *child, sv.push(t.0), out.symbols@[kk].id));
                    },
                    None => {},
                }
            }
        } else if str_eq(k, "trait_item") {
            extract_trait(ctx, sibs, i, scope, scope_id, out);
        } else if str_eq(k, "function_item") {
            extract_function(ctx, sibs, i, scope, scope_id, false, out);
            proof {
                let kk = before.len() as int;
                match rust_item_symbol(src, *child) {
                    Some(t) => {
                        assert(symbol_is(out.symbols@[kk], t.0, join_dotted(sv.push(t.0)), t.1, *child));
                        assert(rust_item_body(src, out.symbols@, out.relations@, *child, sv.push(t.0), out.symbols@[kk].id));
                    },
                    None => {},
                }
            }
        } else if str_eq(k, "impl_item") {
            extract_impl(ctx, child, scope, out);
        } else if str_eq(k, "const_item") || str_eq(k, "static_item") {
            extract_plain_item(ctx, sibs, i, scope, scope_id, SymbolKind::Constant, out);
            proof {
                let kk = before.len() as int;
                match rust_item_symbol(src, *child) {
                    Some(t) => {
                        assert(symbol_is(out.symbols@[kk], t.0, join_dotted(sv.push(t.0)), t.1, *child));
                        assert(rust_item_body(src, out.symbols@, out.relations@, *child, sv.push(t.0), out.symbols@[kk].id));
                    },
                    None => {},
                }
            }
        } else if str_eq(k, "type_item") {
            extract_plain_item(ctx, sibs, i, scope, scope_id, SymbolKind::TypeAlias, out);
            proof {
                let kk = before.len() as int;
                match rust_item_symbol(src, *child) {
                    Some(t) => {
                        assert(symbol_is(out.symbols@[kk], t.0, join_dotted(sv.push(t.0)), t.1, *child));
                        assert(rust_item_body(src, out.symbols@, out.relations@, *child, sv.push(t.0), out.symbols@[kk].id));
                    },
                    None => {},
                }
            }
        } else if str_eq(k, "use_declaration") {
            extract_use(ctx, child, scope_id, out);
            proof {
                if spec_field_text(src, *child, "argument"@) is Some {
                    let j = rbefore.len() as int;
                    assert(out.relations@[j] == out.relations@.last());
                }
            }
        }
        proof {
            lemma_extends_owner(before, out.symbols@, scope_id);
            lemma_new_from_child(old(out).symbols@, before, out.symbols@, *parent, i as int);
            assert(rust_item_held(src, out.symbols@, out.relations@, *child, sv, scope_id));
            assert forall|j: int| 0 <= j < i + 1 implies rust_item_held(src, out.symbols@, out.relations@, #[trigger] sibs@[j], sv, scope_id) by {
                if j < i {
                    lemma_rust_item_extends(src, before, out.symbols@, rbefore, out.relations@, sibs@[j], sv, scope_id);
                }
            }
        }
        i = i + 1;
    }
}

/// A named item with a `keyword name` signature: its symbol and
/// containment. Gives its ID and name.
fn extract_keyword_item<'a, 's>(
    ctx: &VisitorContext<'a>,
    sibs: &Vec<SyntaxNode>,
    idx: usize,
    scope: &[&'s str],
    scope_id: SymbolId,
    kind: SymbolKind,
    keyword: &str,
    out: &mut ParseOutput,
) -> (r: Option<(SymbolId, &'a str)>)
    requires
        sib_pre(*old(out), *ctx, sibs@, idx as int, scope_id),
    ensures
        visit_post(*old(out), *final(out), *ctx),
        new_from(old(out).symbols@, final(out).symbols@, sibs@[idx as int]),
        r matches Some((id, _)) ==> owner_ok(final(out).symbols@, id),
        spec_field_text(ctx.source.spec_bytes(), sibs@[idx as int], "name"@) is None ==> r is None && *final(out) == *old(out),
        spec_field_text(ctx.source.spec_bytes(), sibs@[idx as int], "name"@) matches Some(n) ==> {
            &&& r matches Some((id, nm)) && nm@ == n && id == final(out).symbols@.last().id
            &&& final(out).symbols@.len() == old(out).symbols@.len() + 1
            &&& added_named(old(out).symbols@, final(out).symbols@, n, str_views(scope@), kind, sibs@[idx as int])
            &&& final(out).symbols@.last().signature matches Some(sg) && sg@ == keyword@ + seq![' '] + n
        },
{
    let node = &sibs[idx];
    let name = match field_text(ctx, node, "name") {
        Some(n) => n,
        None => return None,
    };
    let qname = qualified_name(scope, name);
    let doc = extract_doc_comment(ctx, sibs, idx);
    let sig = keyword_signature(keyword, name);
    let sym_id = out.add_contained(ctx, node, name, qname, kind, Some(sig), doc, scope_id, node.start_row);
    Some((sym_id, name))
}

/// An inline module: its symbol, containment and items.
fn extract_mod<'a, 's>(
    ctx: &VisitorContext<'a>,
    sibs: &Vec<SyntaxNode>,
    idx: usize,
    scope: &[&'s str],
    scope_id: SymbolId,
    out: &mut ParseOutput,
) where 'a: 's
    requires
        sib_pre(*old(out), *ctx, sibs@, idx as int, scope_id),
    ensures
        visit_post(*old(out), *final(out), *ctx),
        new_from(old(out).symbols@, final(out).symbols@, sibs@[idx as int]),
        spec_field_text(ctx.source.spec_bytes(), sibs@[idx as int], "name"@) is None ==> *final(out) == *old(out),
        spec_field_text(ctx.source.spec_bytes(), sibs@[idx as int], "name"@) matches Some(n) ==> added_named(
            old(out).symbols@,
            final(out).symbols@,
            n,
            str_views(scope@),
            SymbolKind::Module,
            sibs@[idx as int],
        ),
        sibs@[idx as int].kind@ == "mod_item"@ ==> rust_item_held(
            ctx.source.spec_bytes(),
            final(out).symbols@,
            final(out).relations@,
            sibs@[idx as int],
            str_views(scope@),
            scope_id,
        ),
    decreases sibs@[idx as int],
{
    proof {
        lemma_rust_kinds_distinct();
    }
    let ghost len = ctx.source.spec_bytes().len();
    let ghost src = ctx.source.spec_bytes();
    let ghost sv = str_views(scope@);
    let ghost before = out.symbols@;
    let node = &sibs[idx];
    if let Some((sym_id, name)) = extract_keyword_item(ctx, sibs, idx, scope, scope_id, SymbolKind::Module, "mod", out) {
        let ghost k = before.len() as int;
        let ghost s0 = out.symbols@;
        assert(out.symbols@[k].id == sym_id);
        if let Some(body) = child_by_field(node, "body") {
            proof {
                lemma_child_spans_ok(*node, len, body as int);
            }
            let new_scope = extend_scope(scope, name);
            assert(str_views(new_scope@) =~= sv.push(name@));
            extract_items(ctx, &node.children[body], new_scope.as_slice(), sym_id, out);
        }
        proof {
            assert(out.symbols@[k] == s0[k]);
            assert(symbol_is(out.symbols@[k], name@, join_dotted(sv.push(name@)), SymbolKind::Module, *node));
            if node.kind@ == "mod_item"@ {
                assert(rust_item_body(src, out.symbols@, out.relations@, *node, sv.push(name@), out.symbols@[k].id));
            }
        }
    }
}

/// A trait: its symbol, containment and the items of its body.
fn extract_trait<'a, 's>(
    ctx: &VisitorContext<'a>,
    sibs: &Vec<SyntaxNode>,
    idx: usize,
    scope: &[&'s str],
    scope_id: SymbolId,
    out: &mut ParseOutput,
) where 'a: 's
    requires
        sib_pre(*old(out), *ctx, sibs@, idx as int, scope_id),
    ensures
        visit_post(*old(out), *final(out), *ctx),
        new_from(old(out).symbols@, final(out).symbols@, sibs@[idx as int]),
        spec_field_text(ctx.source.spec_bytes(), sibs@[idx as int], "name"@) is None ==> *final(out) == *old(out),
        spec_field_text(ctx.source.spec_bytes(), sibs@[idx as int], "name"@) matches Some(n) ==> added_named(
            old(out).symbols@,
            final(out).symbols@,
            n,
            str_views(scope@),
            SymbolKind::Trait,
            sibs@[idx as int],
        ),
        sibs@[idx as int].kind@ == "trait_item"@ ==> rust_item_held(
            ctx.source.spec_bytes(),
            final(out).symbols@,
            final(out).relations@,
            sibs@[idx as int],
            str_views(scope@),
            scope_id,
        ),
    decreases sibs@[idx as int],
{
    proof {
        lemma_rust_kinds_distinct();
    }
    let ghost len = ctx.source.spec_bytes().len();
    let ghost src = ctx.source.spec_bytes();
    let ghost sv = str_views(scope@);
    let ghost before = out.symbols@;
    let node = &sibs[idx];
    if let Some((sym_id, name)) = extract_keyword_item(ctx, sibs, idx, scope, scope_id, SymbolKind::Trait, "trait", out) {
        let ghost k = before.len() as int;
        let ghost s0 = out.symbols@;
        assert(out.symbols@[k].id == sym_id);
        if let Some(body) = child_by_field(node, "body") {
            proof {
                lemma_child_spans_ok(*node, len, body as int);
            }
            let new_scope = extend_scope(scope, name);
            assert(str_views(new_scope@) =~= sv.push(name@));
            extract_body_items(ctx, &node.children[body], new_scope.as_slice(), sym_id, true, out);
        }
        proof {
            assert(out.symbols@[k] == s0[k]);
            assert(symbol_is(out.symbols@[k], name@, join_dotted(sv.push(name@)), SymbolKind::Trait, *node));
            if node.kind@ == "trait_item"@ {
                assert(rust_item_body(src, out.symbols@, out.relations@, *node, sv.push(name@), out.symbols@[k].id));
            }
        }
    }
}

/// The functions, constants and type aliases of a trait or impl body; in a
/// trait, bare method signatures count too.
fn extract_body_items<'a, 's>(
    ctx: &VisitorContext<'a>,
    body: &SyntaxNode,
    scope: &[&'s str],
    owner: SymbolId,
    in_trait: bool,
    out: &mut ParseOutput,
) where 'a: 's
    requires
        visit_pre(*old(out), *ctx, *body, owner),
    ensures
        visit_post(*old(out), *final(out), *ctx),
        new_from(old(out).symbols@, final(out).symbols@, *body),
        rust_body_items_held(ctx.source.spec_bytes(), final(out).symbols@, final(out).relations@, *body, str_views(scope@), in_trait),
    decreases *body,
{
    let ghost len = ctx.source.spec_bytes().len();
    let ghost src = ctx.source.spec_bytes();
    let ghost sv = str_views(scope@);
    let ghost start = out.symbols@;
    proof {
        lemma_all_children_spans_ok(*body, len);
    }
    let sibs = &body.children;
    let mut i: usize = 0;
    while i < sibs.len()
        invariant
            sibs == &body.children,
            i <= sibs@.len(),
            len == ctx.source.spec_bytes().len(),
            all_spans_ok(sibs@, len),
            ctx_ok(*out, *ctx),
            new_from(old(out).symbols@, out.symbols@, *body),
            rel_extends(old(out).relations@, out.relations@),
            extends(start, out.symbols@),
            start == old(out).symbols@,
            owner_ok(out.symbols@, owner),
            src == ctx.source.spec_bytes(),
            sv == str_views(scope@),
            forall|j: int| 0 <= j < i ==> rust_body_held(src, out.symbols@, out.relations@, #[trigger] sibs@[j], sv, in_trait),
        decreases sibs@.len() - i,
    {
        let ghost before = out.symbols@;
        let ghost rbefore = out.relations@;
        proof {
            lemma_rust_kinds_distinct();
        }
        let k = sibs[i].kind.as_str();
        if str_eq(k, "function_item") || (in_trait && str_eq(k, "function_signature_item")) {
            extract_function(ctx, sibs, i, scope, owner, true, out);
            proof {
                let kk = before.len() as int;
                match rust_body_symbol(src, sibs@[i as int], in_trait) {
                    Some(t) => {
                        assert(symbol_is(out.symbols@[kk], t.0, join_dotted(sv.push(t.0)), t.1, sibs@[i as int]));
                        assert(rust_fn_calls(src, out.relations@, sibs@[i as int], out.symbols@[kk].id));
                    },
                    None => {},
                }
            }
        } else if str_eq(k, "const_item") {
            extract_plain_item(ctx, sibs, i, scope, owner, SymbolKind::Constant, out);
            proof {
                let kk = before.len() as int;
                match rust_body_symbol(src, sibs@[i as int], in_trait) {
                    Some(t) => {
                        assert(symbol_is(out.symbols@[kk], t.0, join_dotted(sv.push(t.0)), t.1, sibs@[i as int]));
                        assert(rust_fn_calls(src, out.relations@, sibs@[i as int], out.symbols@[kk].id));
                    },
                    None => {},
                }
            }
        } else if str_eq(k, "type_item") {
            extract_plain_item(ctx, sibs, i, scope, owner, SymbolKind::TypeAlias, out);
            proof {
                let kk = before.len() as int;
                match rust_body_symbol(src, sibs@[i as int], in_trait) {
                    Some(t) => {
                        assert(symbol_is(out.symbols@[kk], t.0, join_dotted(sv.push(t.0)), t.1, sibs@[i as int]));
                        assert(rust_fn_calls(src, out.relations@, sibs@[i as int], out.symbols@[kk].id));
                    },
                    None => {},
                }
            }
        }
        proof {
            lemma_extends_owner(before, out.symbols@, owner);
            lemma_new_from_child(old(out).symbols@, before, out.symbols@, *body, i as int);
            assert(rust_body_held(src, out.symbols@, out.relations@, sibs@[i as int], sv, in_trait));
            assert forall|j: int| 0 <= j < i + 1 implies rust_body_held(src, out.symbols@, out.relations@, #[trigger] sibs@[j], sv, in_trait) by {
                if j < i {
                    lemma_rust_body_held_extends(src, before, out.symbols@, rbefore, out.relations@, sibs@[j], sv, in_trait);
                }
            }
        }
        i = i + 1;
    }
}

/// A function or method: its symbol, containment and the calls in its body.
fn extract_function<'s>(
    ctx: &VisitorContext,
    sibs: &Vec<SyntaxNode>,
    idx: usize,
    scope: &[&'s str],
    scope_id: SymbolId,
    is_method: bool,
    out: &mut ParseOutput,
)
    requires
        sib_pre(*old(out), *ctx, sibs@, idx as int, scope_id),
    ensures
        visit_post(*old(out), *final(out), *ctx),
        new_from(old(out).symbols@, final(out).symbols@, sibs@[idx as int]),
        !(spec_field_text(ctx.source.spec_bytes(), sibs@[idx as int], "name"@) matches Some(n) && n.len() > 0) ==> *final(out) == *old(out),
        spec_field_text(ctx.source.spec_bytes(), sibs@[idx as int], "name"@) matches Some(n) ==> n.len() > 0 ==> {
            &&& added_named(
                old(out).symbols@,
                final(out).symbols@,
                n,
                str_views(scope@),
                if is_method { SymbolKind::Method } else { SymbolKind::Function },
                sibs@[idx as int],
            )
            &&& final(out).symbols@[old(out).symbols@.len() as int].signature matches Some(sg) && sg@ == "fn "@ + n
                + field_or(ctx.source.spec_bytes(), sibs@[idx as int], "parameters"@, "()"@) + field_after(
                ctx.source.spec_bytes(),
                sibs@[idx as int],
                "return_type"@,
                " -> "@,
            )
        },
        spec_field_text(ctx.source.spec_bytes(), sibs@[idx as int], "name"@) matches Some(n) ==> n.len() > 0 ==> rust_fn_calls(
            ctx.source.spec_bytes(),
            final(out).relations@,
            sibs@[idx as int],
            final(out).symbols@[old(out).symbols@.len() as int].id,
        ),
{
    let ghost src = ctx.source.spec_bytes();
    let ghost len = ctx.source.spec_bytes().len();
    let node = &sibs[idx];
    let name = match field_text(ctx, node, "name") {
        Some(n) => n,
        None => return,
    };
    if name.unicode_len() == 0 {
        return;
    }
    let kind = if is_method {
        SymbolKind::Method
    } else {
        SymbolKind::Function
    };
    let qname = qualified_name(scope, name);
    let signature = build_fn_signature(ctx, node, name);
    let doc = extract_doc_comment(ctx, sibs, idx);
    let ghost k = out.symbols@.len() as int;
    let sym_id = out.add_contained(ctx, node, name, qname, kind, Some(signature), doc, scope_id, node.start_row);
    assert(out.symbols@[k].id == sym_id);
    if let Some(body) = child_by_field(node, "body") {
        proof {
            lemma_child_spans_ok(*node, len, body as int);
        }
        let ghost r0 = out.relations@;
        extract_calls(ctx, &node.children[body], sym_id, out);
        proof {
            lemma_appended_has(r0, out.relations@, sym_id, RelationKind::Calls, rust_calls_names(src, node.children@[body as int]));
        }
    }
}

/// A constant, static or type alias: its symbol and containment, when it
/// has a non-empty name.
fn extract_plain_item<'s>(
    ctx: &VisitorContext,
    sibs: &Vec<SyntaxNode>,
    idx: usize,
    scope: &[&'s str],
    scope_id: SymbolId,
    kind: SymbolKind,
    out: &mut ParseOutput,
)
    requires
        sib_pre(*old(out), *ctx, sibs@, idx as int, scope_id),
    ensures
        visit_post(*old(out), *final(out), *ctx),
        new_from(old(out).symbols@, final(out).symbols@, sibs@[idx as int]),
        !(spec_field_text(ctx.source.spec_bytes(), sibs@[idx as int], "name"@) matches Some(n) && n.len() > 0) ==> *final(out) == *old(out),
        spec_field_text(ctx.source.spec_bytes(), sibs@[idx as int], "name"@) matches Some(n) ==> n.len() > 0 ==> {
            &&& final(out).symbols@.len() == old(out).symbols@.len() + 1
            &&& added_named(old(out).symbols@, final(out).symbols@, n, str_views(scope@), kind, sibs@[idx as int])
            &&& final(out).symbols@.last().signature is None
        },
{
    let node = &sibs[idx];
    let name = match field_text(ctx, node, "name") {
        Some(n) => n,
        None => return,
    };
    if name.unicode_len() == 0 {
        return;
    }
    let qname = qualified_name(scope, name);
    let doc = extract_doc_comment(ctx, sibs, idx);
    let sym_id = out.add_contained(ctx, node, name, qname, kind, None, doc, scope_id, node.start_row);
}

/// An impl block: for `impl Trait for Type`, an implementation relation
/// between the phantoms of the type and the trait; the items of its body,
/// owned by the type's phantom and scoped under the type's name.
fn extract_impl<'s>(ctx: &VisitorContext, node: &SyntaxNode, scope: &[&'s str], out: &mut ParseOutput)
    requires
        ctx_ok(*old(out), *ctx),
        spans_ok(*node, ctx.source.spec_bytes().len()),
    ensures
        visit_post(*old(out), *final(out), *ctx),
        new_from(old(out).symbols@, final(out).symbols@, *node),
        rust_impl_type(ctx.source.spec_bytes(), *node) is None ==> *final(out) == *old(out),
        rust_impl_held(ctx.source.spec_bytes(), final(out).symbols@, final(out).relations@, *node, str_views(scope@)),
    decreases *node,
{
    let ghost len = ctx.source.spec_bytes().len();
    let type_text = match field_text(ctx, node, "type") {
        Some(t) => str_to_string(t),
        None => String::new(),
    };
    if type_text.as_str().unicode_len() == 0 {
        return;
    }
    let clean_name = name_before_generics(type_text.as_str());
    let type_qname = qualified_name(scope, clean_name.as_str());
    let type_id = phantom_of(type_qname.as_str());
    if let Some(trait_name) = field_text(ctx, node, "trait") {
        let clean_trait = name_before_generics(trait_name);
        if clean_trait.as_str().unicode_len() > 0 {
            let trait_id = phantom_of(clean_trait.as_str());
            let ghost j = out.relations@.len() as int;
            out.add_relation(ctx, type_id, trait_id, RelationKind::Implements, node.start_row);
            assert(out.relations@[j] == out.relations@.last());
        }
    }
    let ghost r1 = out.relations@;
    if let Some(body) = child_by_field(node, "body") {
        proof {
            lemma_child_spans_ok(*node, len, body as int);
        }
        let impl_scope = extend_scope(scope, clean_name.as_str());
        assert(str_views(impl_scope@) =~= str_views(scope@).push(clean_name@));
        extract_body_items(ctx, &node.children[body], impl_scope.as_slice(), type_id, false, out);
    }
    proof {
        let ty = clean_name@;
        assert(type_qname@ == join_dotted(str_views(scope@).push(ty)));
        match spec_field_text(ctx.source.spec_bytes(), *node, "trait"@) {
            Some(tr) => if spec_trim(chars_before(tr, '<')).len() > 0 {
                lemma_relation_extends(
                    r1,
                    out.relations@,
                    SymbolId(phantom_id(join_dotted(str_views(scope@).push(ty)))),
                    SymbolId(phantom_id(spec_trim(chars_before(tr, '<')))),
                    RelationKind::Implements,
                );
            },
            None => {},
        }
    }
}

/// A `use` declaration: an import of its path, in canonical form.
fn extract_use(ctx: &VisitorContext, node: &SyntaxNode, scope_id: SymbolId, out: &mut ParseOutput)
    requires
        visit_pre(*old(out), *ctx, *node, scope_id),
    ensures
        visit_post(*old(out), *final(out), *ctx),
        new_from(old(out).symbols@, final(out).symbols@, *node),
        final(out).symbols@ == old(out).symbols@,
        spec_field_text(ctx.source.spec_bytes(), *node, "argument"@) is None ==> *final(out) == *old(out),
        spec_field_text(ctx.source.spec_bytes(), *node, "argument"@) matches Some(p) ==> pushed_relation(
            old(out).relations@,
            final(out).relations@,
            scope_id,
            SymbolId(phantom_id(spec_normalize(p, Language::Rust))),
            RelationKind::Imports,
        ),
{
    if let Some(path_text) = field_text(ctx, node, "argument") {
        let canonical = QualifiedName::normalize(path_text, Language::Rust);
        let target_id = phantom_of(canonical.as_str());
        out.add_relation(ctx, scope_id, target_id, RelationKind::Imports, node.start_row);
    }
}

/// The callee a child names itself: a call expression's `function` field, in canonical form, when not empty.
pub open spec fn rust_calls_here(src: Seq<u8>, c: SyntaxNode) -> Seq<Seq<char>> {
    if c.kind@ == "call_expression"@ && spec_field_text(src, c, "function"@) is Some && spec_field_text(
        src,
        c,
        "function"@,
    )->0.len() > 0 {
        seq![spec_normalize(spec_field_text(src, c, "function"@)->0, Language::Rust)]
    } else {
        Seq::empty()
    }
}

/// The callee names under a node, in traversal order.
pub open spec fn rust_calls_names(src: Seq<u8>, node: SyntaxNode) -> Seq<Seq<char>>
    decreases node, node.children@.len() + 1,
{
    rust_calls_names_upto(src, node, node.children@.len() as int)
}

/// `rust_calls_names` over the first `n` children.
pub open spec fn rust_calls_names_upto(src: Seq<u8>, node: SyntaxNode, n: int) -> Seq<Seq<char>>
    decreases node, n,
{
    if n <= 0 || n > node.children@.len() {
        Seq::empty()
    } else {
        let c = node.children@[n - 1];
        rust_calls_names_upto(src, node, n - 1) + rust_calls_here(src, c) + if c.kind@ != "function_item"@ && c.kind@ != "closure_expression"@ {
            rust_calls_names(src, c)
        } else {
            Seq::empty()
        }
    }
}

/// Call relations for the calls under a node, by the callee's canonical
/// name, not looking into nested functions and closures.
fn extract_calls(ctx: &VisitorContext, node: &SyntaxNode, caller_id: SymbolId, out: &mut ParseOutput)
    requires
        visit_pre(*old(out), *ctx, *node, caller_id),
    ensures
        visit_post(*old(out), *final(out), *ctx),
        new_from(old(out).symbols@, final(out).symbols@, *node),
        final(out).symbols@ == old(out).symbols@,
        appended_to_phantoms(
            old(out).relations@,
            final(out).relations@,
            caller_id,
            RelationKind::Calls,
            rust_calls_names(ctx.source.spec_bytes(), *node),
        ),
    decreases *node,
{
    let ghost len = ctx.source.spec_bytes().len();
    proof {
        lemma_append_none(old(out).relations@, caller_id, RelationKind::Calls);
    }
    let mut i: usize = 0;
    while i < node.children.len()
        invariant
            i <= node.children@.len(),
            len == ctx.source.spec_bytes().len(),
            spans_ok(*node, len),
            ctx_ok(*out, *ctx),
            new_from(old(out).symbols@, out.symbols@, *node),
            rel_extends(old(out).relations@, out.relations@),
            out.symbols@ == old(out).symbols@,
            owner_ok(out.symbols@, caller_id),
            appended_to_phantoms(
                old(out).relations@,
                out.relations@,
                caller_id,
                RelationKind::Calls,
                rust_calls_names_upto(ctx.source.spec_bytes(), *node, i as int),
            ),
        decreases node.children@.len() - i,
    {
        let child = &node.children[i];
        proof {
            lemma_child_spans_ok(*node, len, i as int);
        }
        let ghost mid = out.relations@;
        let ghost pre = rust_calls_names_upto(ctx.source.spec_bytes(), *node, i as int);
        if str_eq(child.kind.as_str(), "call_expression") {
            if let Some(callee) = field_text(ctx, child, "function") {
                if callee.unicode_len() > 0 {
                    let canonical = QualifiedName::normalize(callee, Language::Rust);
                    let target_id = phantom_of(canonical.as_str());
                    out.add_relation(ctx, caller_id, target_id, RelationKind::Calls, child.start_row);
                    proof {
                        lemma_append_phantom(old(out).relations@, mid, out.relations@, caller_id, RelationKind::Calls, pre, canonical@);
                        assert(pre.push(canonical@) =~= pre + seq![canonical@]);
                    }
                }
            }
        }
        let ghost here = rust_calls_here(ctx.source.spec_bytes(), *child);
        proof {
            if here.len() == 0 {
                assert(pre + here =~= pre);
            }
        }
        assert(appended_to_phantoms(old(out).relations@, out.relations@, caller_id, RelationKind::Calls, pre + here));
        let ghost mid2 = out.relations@;
        if !str_eq(child.kind.as_str(), "function_item") && !str_eq(child.kind.as_str(), "closure_expression") {
            extract_calls(ctx, child, caller_id, out);
            proof {
                lemma_append_all(
                    old(out).relations@,
                    mid2,
                    out.relations@,
                    caller_id,
                    RelationKind::Calls,
                    pre + here,
                    rust_calls_names(ctx.source.spec_bytes(), *child),
                );
            }
        } else {
            assert(pre + here + Seq::<Seq<char>>::empty() =~= pre + here);
        }
        i = i + 1;
    }
}

} // verus!
