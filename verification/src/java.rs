//! Symbols and relations of a Java source file: the package, classes,
//! interfaces and enums with their members, imports, heritage and calls.
use vstd::prelude::*;
use vstd::string::StringSliceAdditionalSpecFns;
use crate::chunker::SyntaxNode;
use crate::qualified_name::{join_dotted, str_views};
use crate::resolver::phantom_id;
use crate::comments::{opt_string, spec_block_doc};
use crate::comments::{comment_lines, join_newlines};
use crate::extract::{
    new_from, in_subtree, lemma_new_from_child, lemma_new_from_trans,
    rel_extends,
    all_spans_ok, child_by_field, ctx_ok, extend_scope, extends, lemma_all_children_spans_ok, lemma_child_spans_ok,
    lemma_extends_owner, node_text, owner_ok, phantom_of, spans_ok, visit_post, visit_pre, ParseOutput, VisitorContext, opt_text, spec_field_text, field_or, field_after, pushed_relation, appended_to_phantoms, lemma_append_phantom, spec_first_kind_from, spec_node_text, spec_first_inner_text, spec_first_either_from, children_added, symbol_is, has_symbol, lemma_added_has, lemma_has_extends, has_relations_to, lemma_appended_has, lemma_relations_to_extends, spec_child_by_field, added_named, lemma_append_all, lemma_append_none};
use crate::fusion::str_starts_with;
use crate::language::str_eq;
use crate::naming::{file_stem_or, qualified_name, spec_stem_or};
use crate::relation::{CodeRelation, RelationKind};
use crate::symbol::{CodeSymbol, SymbolId, SymbolKind};
use crate::text::{string_push, string_push_str, str_to_string};
use crate::typescript::sib_pre;

verus! {

/// The text of the field `name` of the node, if it has one.
fn field_text<'a>(ctx: &VisitorContext<'a>, node: &SyntaxNode, name: &str) -> (r: Option<&'a str>)
    requires
        spans_ok(*node, ctx.source.spec_bytes().len()),
    ensures
        opt_text(r) == spec_field_text(ctx.source.spec_bytes(), *node, name@),
{
    match child_by_field(node, name) {
        Some(i) => {
            proof {
                lemma_child_spans_ok(*node, ctx.source.spec_bytes().len(), i as int);
            }
            Some(node_text(ctx, &node.children[i]))
        },
        None => None,
    }
}

/// The Javadoc before sibling `j`: walking back past annotations and
/// modifiers, the first block comment's doc text; none when something else
/// comes first.
pub open spec fn spec_javadoc_from(src: Seq<u8>, sibs: Seq<SyntaxNode>, j: int) -> Option<Seq<char>>
    decreases j,
{
    if j <= 0 || j > sibs.len() {
        None
    } else {
        let k = sibs[j - 1].kind@;
        if k == "block_comment"@ {
            spec_block_doc(spec_node_text(src, sibs[j - 1]))
        } else if k == "marker_annotation"@ || k == "annotation"@ || k == "modifiers"@ {
            spec_javadoc_from(src, sibs, j - 1)
        } else {
            None
        }
    }
}

/// The Javadoc comment (`/** ... */`) before the node at `idx`, past any
/// annotations and modifiers, its lines cleaned and joined.
fn extract_javadoc(ctx: &VisitorContext, sibs: &Vec<SyntaxNode>, idx: usize) -> (r: Option<String>)
    requires
        idx < sibs@.len(),
        all_spans_ok(sibs@, ctx.source.spec_bytes().len()),
    ensures
        opt_string(r) == spec_javadoc_from(ctx.source.spec_bytes(), sibs@, idx as int),
{
    let mut j: usize = idx;
    while j > 0
        invariant
            j <= idx < sibs@.len(),
            all_spans_ok(sibs@, ctx.source.spec_bytes().len()),
            spec_javadoc_from(ctx.source.spec_bytes(), sibs@, idx as int) == spec_javadoc_from(
                ctx.source.spec_bytes(),
                sibs@,
                j as int,
            ),
        decreases j,
    {
        let sib = &sibs[j - 1];
        let k = sib.kind.as_str();
        if str_eq(k, "block_comment") {
            let text = node_text(ctx, sib);
            if !str_starts_with(text, "/**") {
                return None;
            }
            let lines = comment_lines(text, "/**");
            if lines.len() == 0 {
                return None;
            }
            return Some(join_newlines(&lines));
        } else if !(str_eq(k, "marker_annotation") || str_eq(k, "annotation") || str_eq(k, "modifiers")) {
            return None;
        }
        j = j - 1;
    }
    None
}

/// The package a file declares: the text of the name in its first package
/// clause that has one, else the file's stem, else `default`.
pub open spec fn java_package_name(src: Seq<u8>, root: SyntaxNode, file_path: Seq<char>) -> Seq<char> {
    match spec_first_inner_text(src, root.children@, "package_declaration"@, "scoped_identifier"@, "identifier"@, 0) {
        Some(t) => t,
        None => spec_stem_or(file_path, "default"@),
    }
}

/// The package a file declares, or its stem, or `default`.
fn extract_package_name(ctx: &VisitorContext, root: &SyntaxNode) -> (r: String)
    requires
        spans_ok(*root, ctx.source.spec_bytes().len()),
    ensures
        r@ == java_package_name(ctx.source.spec_bytes(), *root, ctx.file_path@),
{
    let ghost len = ctx.source.spec_bytes().len();
    let ghost src = ctx.source.spec_bytes();
    let mut i: usize = 0;
    while i < root.children.len()
        invariant
            i <= root.children@.len(),
            len == ctx.source.spec_bytes().len(),
            src == ctx.source.spec_bytes(),
            spans_ok(*root, len),
            spec_first_inner_text(src, root.children@, "package_declaration"@, "scoped_identifier"@, "identifier"@, 0)
                == spec_first_inner_text(src, root.children@, "package_declaration"@, "scoped_identifier"@, "identifier"@, i as int),
        decreases root.children@.len() - i,
    {
        let child = &root.children[i];
        if str_eq(child.kind.as_str(), "package_declaration") {
            proof {
                lemma_child_spans_ok(*root, len, i as int);
            }
            let mut j: usize = 0;
            while j < child.children.len()
                invariant
                    j <= child.children@.len(),
                    len == ctx.source.spec_bytes().len(),
                    src == ctx.source.spec_bytes(),
                    spans_ok(*child, len),
                    *child == root.children@[i as int],
                    i < root.children@.len(),
                    child.kind@ == "package_declaration"@,
                    spec_first_either_from(child.children@, "scoped_identifier"@, "identifier"@, 0)
                        == spec_first_either_from(child.children@, "scoped_identifier"@, "identifier"@, j as int),
                    spec_first_inner_text(src, root.children@, "package_declaration"@, "scoped_identifier"@, "identifier"@, 0)
                        == spec_first_inner_text(src, root.children@, "package_declaration"@, "scoped_identifier"@, "identifier"@, i as int),
                decreases child.children@.len() - j,
            {
                let k = child.children[j].kind.as_str();
                if str_eq(k, "scoped_identifier") || str_eq(k, "identifier") {
                    proof {
                        lemma_child_spans_ok(*child, len, j as int);
                    }
                    return str_to_string(node_text(ctx, &child.children[j]));
                }
                j = j + 1;
            }
        }
        i = i + 1;
    }
    file_stem_or(ctx.file_path, "default")
}

/// `type name(params)`, the return type first when there is one.
fn build_method_signature(ctx: &VisitorContext, node: &SyntaxNode, name: &str) -> (r: String)
    requires
        spans_ok(*node, ctx.source.spec_bytes().len()),
    ensures
        r@ == field_after(ctx.source.spec_bytes(), *node, "type"@, Seq::empty()) + (if spec_field_text(ctx.source.spec_bytes(), *node, "type"@) is Some {
            seq![' ']
        } else {
            Seq::empty()
        }) + name@ + field_or(ctx.source.spec_bytes(), *node, "parameters"@, "()"@),
{
    let mut sig = String::new();
    if let Some(t) = field_text(ctx, node, "type") {
        string_push_str(&mut sig, t);
        string_push(&mut sig, ' ');
    }
    string_push_str(&mut sig, name);
    match field_text(ctx, node, "parameters") {
        Some(p) => string_push_str(&mut sig, p),
        None => string_push_str(&mut sig, "()"),
    }
    sig
}

/// `keyword name`.
fn keyword_signature(keyword: &str, name: &str) -> (r: String)
    ensures
        r@ == keyword@ + seq![' '] + name@,
{
    let mut sig = str_to_string(keyword);
    string_push(&mut sig, ' ');
    string_push_str(&mut sig, name);
    sig
}

/// Extract the symbols and relations of a Java file from its syntax tree.
/// The first symbol is the package, spanning the whole tree.
pub fn extract(ctx: &VisitorContext, root: &SyntaxNode) -> (out: ParseOutput)
    requires
        spans_ok(*root, ctx.source.spec_bytes().len()),
    ensures
        ctx_ok(out, *ctx),
        new_from(Seq::empty(), out.symbols@, *root),
        out.symbols@.len() >= 1,
        out.symbols@[0].qualified_name@ == out.symbols@[0].name@,
        out.symbols@[0].name@ == java_package_name(ctx.source.spec_bytes(), *root, ctx.file_path@),
        out.symbols@[0].kind == SymbolKind::Package,
        out.symbols@[0].byte_range.start == root.start_byte,
        out.symbols@[0].byte_range.end == root.end_byte,
        java_members_deep(
            ctx.source.spec_bytes(),
            out.symbols@,
            out.relations@,
            *root,
            seq![java_package_name(ctx.source.spec_bytes(), *root, ctx.file_path@)],
            true,
            out.symbols@[0].id,
        ),
{
    let mut out = ParseOutput::new();
    let package_name = extract_package_name(ctx, root);
    let package_qname = package_name.clone();
    let pkg_id = out.add_symbol(ctx, root, package_name.as_str(), package_qname, SymbolKind::Package, None, None);
    let ghost first = out.symbols@[0];
    let scope = vec![package_name.as_str()];
    assert(str_views(scope@) =~= seq![package_name@]);
    assert(pkg_id == first.id);
    let ghost added = out.symbols@;
    assert(new_from(Seq::empty(), added, *root));
    extract_members(ctx, root, scope.as_slice(), pkg_id, true, &mut out);
    proof {
        lemma_new_from_trans(Seq::empty(), added, out.symbols@, *root);
    }
    assert(out.symbols@[0] == first);
    out
}

/// The member kinds a Java visitor tells apart are distinct.
pub proof fn lemma_java_kinds_distinct()
    ensures
        "class_declaration"@ != "interface_declaration"@,
        "class_declaration"@ != "enum_declaration"@,
        "class_declaration"@ != "import_declaration"@,
        "class_declaration"@ != "method_declaration"@,
        "class_declaration"@ != "constructor_declaration"@,
        "class_declaration"@ != "field_declaration"@,
        "class_declaration"@ != "enum_body_declarations"@,
        "class_declaration"@ != "enum_constant"@,
        "interface_declaration"@ != "enum_declaration"@,
        "interface_declaration"@ != "import_declaration"@,
        "interface_declaration"@ != "method_declaration"@,
        "interface_declaration"@ != "constructor_declaration"@,
        "interface_declaration"@ != "field_declaration"@,
        "interface_declaration"@ != "enum_body_declarations"@,
        "interface_declaration"@ != "enum_constant"@,
        "enum_declaration"@ != "import_declaration"@,
        "enum_declaration"@ != "method_declaration"@,
        "enum_declaration"@ != "constructor_declaration"@,
        "enum_declaration"@ != "field_declaration"@,
        "enum_declaration"@ != "enum_body_declarations"@,
        "enum_declaration"@ != "enum_constant"@,
        "import_declaration"@ != "method_declaration"@,
        "import_declaration"@ != "constructor_declaration"@,
        "import_declaration"@ != "field_declaration"@,
        "import_declaration"@ != "enum_body_declarations"@,
        "import_declaration"@ != "enum_constant"@,
        "method_declaration"@ != "constructor_declaration"@,
        "method_declaration"@ != "field_declaration"@,
        "method_declaration"@ != "enum_body_declarations"@,
        "method_declaration"@ != "enum_constant"@,
        "constructor_declaration"@ != "field_declaration"@,
        "constructor_declaration"@ != "enum_body_declarations"@,
        "constructor_declaration"@ != "enum_constant"@,
        "field_declaration"@ != "enum_body_declarations"@,
        "field_declaration"@ != "enum_constant"@,
        "enum_body_declarations"@ != "enum_constant"@,
{
    reveal_strlit("class_declaration");
    reveal_strlit("interface_declaration");
    reveal_strlit("enum_declaration");
    reveal_strlit("import_declaration");
    reveal_strlit("method_declaration");
    reveal_strlit("constructor_declaration");
    reveal_strlit("field_declaration");
    reveal_strlit("enum_body_declarations");
    reveal_strlit("enum_constant");
    assert("class_declaration"@.len() != "interface_declaration"@.len());
    assert("class_declaration"@.len() != "enum_declaration"@.len());
    assert("class_declaration"@.len() != "import_declaration"@.len());
    assert("class_declaration"@.len() != "method_declaration"@.len());
    assert("class_declaration"@.len() != "constructor_declaration"@.len());
    assert("class_declaration"@[0] != "field_declaration"@[0]);
    assert("class_declaration"@.len() != "enum_body_declarations"@.len());
    assert("class_declaration"@.len() != "enum_constant"@.len());
    assert("interface_declaration"@.len() != "enum_declaration"@.len());
    assert("interface_declaration"@.len() != "import_declaration"@.len());
    assert("interface_declaration"@.len() != "method_declaration"@.len());
    assert("interface_declaration"@.len() != "constructor_declaration"@.len());
    assert("interface_declaration"@.len() != "field_declaration"@.len());
    assert("interface_declaration"@.len() != "enum_body_declarations"@.len());
    assert("interface_declaration"@.len() != "enum_constant"@.len());
    assert("enum_declaration"@.len() != "import_declaration"@.len());
    assert("enum_declaration"@.len() != "method_declaration"@.len());
    assert("enum_declaration"@.len() != "constructor_declaration"@.len());
    assert("enum_declaration"@.len() != "field_declaration"@.len());
    assert("enum_declaration"@.len() != "enum_body_declarations"@.len());
    assert("enum_declaration"@.len() != "enum_constant"@.len());
    assert("import_declaration"@[0] != "method_declaration"@[0]);
    assert("import_declaration"@.len() != "constructor_declaration"@.len());
    assert("import_declaration"@.len() != "field_declaration"@.len());
    assert("import_declaration"@.len() != "enum_body_declarations"@.len());
    assert("import_declaration"@.len() != "enum_constant"@.len());
    assert("method_declaration"@.len() != "constructor_declaration"@.len());
    assert("method_declaration"@.len() != "field_declaration"@.len());
    assert("method_declaration"@.len() != "enum_body_declarations"@.len());
    assert("method_declaration"@.len() != "enum_constant"@.len());
    assert("constructor_declaration"@.len() != "field_declaration"@.len());
    assert("constructor_declaration"@.len() != "enum_body_declarations"@.len());
    assert("constructor_declaration"@.len() != "enum_constant"@.len());
    assert("field_declaration"@.len() != "enum_body_declarations"@.len());
    assert("field_declaration"@.len() != "enum_constant"@.len());
    assert("enum_body_declarations"@.len() != "enum_constant"@.len());
}

/// The symbol a member makes for itself, when it has a name: a type
/// anywhere; in a body (not `top`), a method or constructor with a
/// non-empty name.
pub open spec fn java_member_symbol(src: Seq<u8>, c: SyntaxNode, top: bool) -> Option<(Seq<char>, SymbolKind)> {
    let k = c.kind@;
    match spec_field_text(src, c, "name"@) {
        None => None,
        Some(n) => if k == "class_declaration"@ {
            Some((n, SymbolKind::Class))
        } else if k == "interface_declaration"@ {
            Some((n, SymbolKind::Interface))
        } else if k == "enum_declaration"@ {
            Some((n, SymbolKind::Enum))
        } else if !top && (k == "method_declaration"@ || k == "constructor_declaration"@) && n.len() > 0 {
            Some((n, SymbolKind::Method))
        } else {
            None
        },
    }
}

/// `syms` holds a symbol for each variable of a field declaration.
pub open spec fn java_fields_held(src: Seq<u8>, syms: Seq<CodeSymbol>, node: SyntaxNode, scope: Seq<Seq<char>>) -> bool {
    let idx = java_field_vars(src, node.children@, node.children@.len() as int);
    forall|k: int|
        0 <= k < idx.len() ==> has_symbol(
            syms,
            field_or(src, node.children@[#[trigger] idx[k]], "name"@, Seq::empty()),
            join_dotted(scope.push(field_or(src, node.children@[idx[k]], "name"@, Seq::empty()))),
            if (modifier_among(node.children@, "static"@, node.children@.len() as int) && modifier_among(node.children@, "final"@, node.children@.len() as int)) {
                SymbolKind::Constant
            } else {
                SymbolKind::Variable
            },
            node.children@[idx[k]],
        )
}

/// `syms` holds what a member declares: its own symbol, or in a body one
/// per variable of a field declaration.
pub open spec fn java_member_held(
    src: Seq<u8>,
    syms: Seq<CodeSymbol>,
    rels: Seq<CodeRelation>,
    c: SyntaxNode,
    scope: Seq<Seq<char>>,
    top: bool,
    owner: SymbolId,
) -> bool
    decreases c, 1int,
{
    if !top && c.kind@ == "field_declaration"@ {
        java_fields_held(src, syms, c, scope)
    } else if top && c.kind@ == "import_declaration"@ {
        has_relations_to(
            rels,
            owner,
            RelationKind::Imports,
            nonempty_texts_of_kind(src, c.children@, "scoped_identifier"@, c.children@.len() as int),
        )
    } else {
        match java_member_symbol(src, c, top) {
            Some(t) => exists|k: int|
                0 <= k < syms.len() && symbol_is(#[trigger] syms[k], t.0, join_dotted(scope.push(t.0)), t.1, c)
                    && java_member_body(src, syms, rels, c, scope.push(t.0), syms[k].id),
            None => true,
        }
    }
}

/// What comes with the symbol `id` of a member, scoped in `inner`: a
/// class's or interface's inheritance and implementation of the types its
/// clauses name and what its body declares; an enum's body; a method's or
/// constructor's calls.
pub open spec fn java_member_body(
    src: Seq<u8>,
    syms: Seq<CodeSymbol>,
    rels: Seq<CodeRelation>,
    c: SyntaxNode,
    inner: Seq<Seq<char>>,
    id: SymbolId,
) -> bool
    decreases c, 0int,
{
    let body = spec_child_by_field(c, "body"@);
    if c.kind@ == "class_declaration"@ || c.kind@ == "interface_declaration"@ {
        &&& has_relations_to(
            rels,
            id,
            RelationKind::Inherits,
            clause_names(src, c, "superclass"@, "extends_interfaces"@, c.children@.len() as int),
        )
        &&& (c.kind@ == "class_declaration"@ ==> has_relations_to(
            rels,
            id,
            RelationKind::Implements,
            clause_names(src, c, "super_interfaces"@, "interfaces"@, c.children@.len() as int),
        ))
        &&& (body matches Some(b) ==> (0 <= b < c.children@.len() ==> java_members_deep(src, syms, rels, c.children@[b], inner, false, id)))
    } else if c.kind@ == "enum_declaration"@ {
        body matches Some(b) ==> (0 <= b < c.children@.len() ==> java_enum_deep(src, syms, rels, c.children@[b], inner, id))
    } else {
        body matches Some(b) ==> (0 <= b < c.children@.len() ==> has_relations_to(
            rels,
            id,
            RelationKind::Calls,
            java_calls_names(src, c.children@[b]),
        ))
    }
}

/// `syms` and `rels` hold what each member of `node` declares, nested
/// types' members included, with `owner` as the importer.
pub open spec fn java_members_deep(
    src: Seq<u8>,
    syms: Seq<CodeSymbol>,
    rels: Seq<CodeRelation>,
    node: SyntaxNode,
    scope: Seq<Seq<char>>,
    top: bool,
    owner: SymbolId,
) -> bool
    decreases node, 2int,
{
    forall|j: int| 0 <= j < node.children@.len() ==> java_member_held(src, syms, rels, #[trigger] node.children@[j], scope, top, owner)
}

/// `syms` and `rels` hold what each item of an enum body declares.
pub open spec fn java_enum_deep(
    src: Seq<u8>,
    syms: Seq<CodeSymbol>,
    rels: Seq<CodeRelation>,
    body: SyntaxNode,
    scope: Seq<Seq<char>>,
    owner: SymbolId,
) -> bool
    decreases body, 2int,
{
    forall|j: int| 0 <= j < body.children@.len() ==> java_enum_item_held(src, syms, rels, #[trigger] body.children@[j], scope, owner)
}

/// What a member declares stays held as the list grows.
pub proof fn lemma_java_member_extends(
    src: Seq<u8>,
    a: Seq<CodeSymbol>,
    b: Seq<CodeSymbol>,
    ra: Seq<CodeRelation>,
    rb: Seq<CodeRelation>,
    c: SyntaxNode,
    scope: Seq<Seq<char>>,
    top: bool,
    owner: SymbolId,
)
    requires
        extends(a, b),
        rel_extends(ra, rb),
        java_member_held(src, a, ra, c, scope, top, owner),
    ensures
        java_member_held(src, b, rb, c, scope, top, owner),
    decreases c, 1int,
{
    if !top && c.kind@ == "field_declaration"@ {
        let idx = java_field_vars(src, c.children@, c.children@.len() as int);
        let kind = if (modifier_among(c.children@, "static"@, c.children@.len() as int) && modifier_among(c.children@, "final"@, c.children@.len() as int)) {
            SymbolKind::Constant
        } else {
            SymbolKind::Variable
        };
        assert forall|k: int| 0 <= k < idx.len() implies has_symbol(
            b,
            field_or(src, c.children@[#[trigger] idx[k]], "name"@, Seq::empty()),
            join_dotted(scope.push(field_or(src, c.children@[idx[k]], "name"@, Seq::empty()))),
            kind,
            c.children@[idx[k]],
        ) by {
            lemma_has_extends(
                a,
                b,
                field_or(src, c.children@[idx[k]], "name"@, Seq::empty()),
                join_dotted(scope.push(field_or(src, c.children@[idx[k]], "name"@, Seq::empty()))),
                kind,
                c.children@[idx[k]],
            );
        }
    } else if top && c.kind@ == "import_declaration"@ {
        lemma_relations_to_extends(ra, rb, owner, RelationKind::Imports, nonempty_texts_of_kind(src, c.children@, "scoped_identifier"@, c.children@.len() as int));
    } else {
        match java_member_symbol(src, c, top) {
            Some(t) => {
                let k = choose|k: int|
                    0 <= k < a.len() && symbol_is(#[trigger] a[k], t.0, join_dotted(scope.push(t.0)), t.1, c)
                        && java_member_body(src, a, ra, c, scope.push(t.0), a[k].id);
                assert(b[k] == a[k]);
                lemma_java_member_body_extends(src, a, b, ra, rb, c, scope.push(t.0), a[k].id);
            },
            None => {},
        }
    }
}

/// What comes with a member's symbol stays held as the lists grow.
pub proof fn lemma_java_member_body_extends(
    src: Seq<u8>,
    a: Seq<CodeSymbol>,
    b: Seq<CodeSymbol>,
    ra: Seq<CodeRelation>,
    rb: Seq<CodeRelation>,
    c: SyntaxNode,
    inner: Seq<Seq<char>>,
    id: SymbolId,
)
    requires
        extends(a, b),
        rel_extends(ra, rb),
        java_member_body(src, a, ra, c, inner, id),
    ensures
        java_member_body(src, b, rb, c, inner, id),
    decreases c, 0int,
{
    if c.kind@ == "class_declaration"@ || c.kind@ == "interface_declaration"@ {
        lemma_relations_to_extends(ra, rb, id, RelationKind::Inherits, clause_names(src, c, "superclass"@, "extends_interfaces"@, c.children@.len() as int));
        if c.kind@ == "class_declaration"@ {
            lemma_relations_to_extends(ra, rb, id, RelationKind::Implements, clause_names(src, c, "super_interfaces"@, "interfaces"@, c.children@.len() as int));
        }
        match spec_child_by_field(c, "body"@) {
            Some(x) => if 0 <= x < c.children@.len() {
                lemma_java_members_deep_extends(src, a, b, ra, rb, c.children@[x], inner, false, id);
            },
            None => {},
        }
    } else if c.kind@ == "enum_declaration"@ {
        match spec_child_by_field(c, "body"@) {
            Some(x) => if 0 <= x < c.children@.len() {
                lemma_java_enum_deep_extends(src, a, b, ra, rb, c.children@[x], inner, id);
            },
            None => {},
        }
    } else {
        match spec_child_by_field(c, "body"@) {
            Some(x) => if 0 <= x < c.children@.len() {
                lemma_relations_to_extends(ra, rb, id, RelationKind::Calls, java_calls_names(src, c.children@[x]));
            },
            None => {},
        }
    }
}

/// What the members of `node` declare stays held as the lists grow.
pub proof fn lemma_java_members_deep_extends(
    src: Seq<u8>,
    a: Seq<CodeSymbol>,
    b: Seq<CodeSymbol>,
    ra: Seq<CodeRelation>,
    rb: Seq<CodeRelation>,
    node: SyntaxNode,
    scope: Seq<Seq<char>>,
    top: bool,
    owner: SymbolId,
)
    requires
        extends(a, b),
        rel_extends(ra, rb),
        java_members_deep(src, a, ra, node, scope, top, owner),
    ensures
        java_members_deep(src, b, rb, node, scope, top, owner),
    decreases node, 2int,
{
    assert forall|j: int| 0 <= j < node.children@.len() implies java_member_held(src, b, rb, #[trigger] node.children@[j], scope, top, owner) by {
        lemma_java_member_extends(src, a, b, ra, rb, node.children@[j], scope, top, owner);
    }
}

/// What an enum body declares stays held as the lists grow.
pub proof fn lemma_java_enum_deep_extends(
    src: Seq<u8>,
    a: Seq<CodeSymbol>,
    b: Seq<CodeSymbol>,
    ra: Seq<CodeRelation>,
    rb: Seq<CodeRelation>,
    body: SyntaxNode,
    scope: Seq<Seq<char>>,
    owner: SymbolId,
)
    requires
        extends(a, b),
        rel_extends(ra, rb),
        java_enum_deep(src, a, ra, body, scope, owner),
    ensures
        java_enum_deep(src, b, rb, body, scope, owner),
    decreases body, 2int,
{
    assert forall|j: int| 0 <= j < body.children@.len() implies java_enum_item_held(src, b, rb, #[trigger] body.children@[j], scope, owner) by {
        lemma_java_enum_item_extends(src, a, b, ra, rb, body.children@[j], scope, owner);
    }
}

/// The declarations of a file (`top`) or of a class or interface body:
/// types in both, imports at the top, methods, constructors and fields in
/// a body.
fn extract_members<'a, 's>(
    ctx: &VisitorContext<'a>,
    parent: &SyntaxNode,
    scope: &[&'s str],
    scope_id: SymbolId,
    top: bool,
    out: &mut ParseOutput,
) where 'a: 's
    requires
        visit_pre(*old(out), *ctx, *parent, scope_id),
    ensures
        visit_post(*old(out), *final(out), *ctx),
        new_from(old(out).symbols@, final(out).symbols@, *parent),
        forall|i: int|
            0 <= i < parent.children@.len() ==> java_member_held(
                ctx.source.spec_bytes(),
                final(out).symbols@,
                final(out).relations@,
                #[trigger] parent.children@[i],
                str_views(scope@),
                top,
                scope_id,
            ),
    decreases *parent,
{
    let ghost len = ctx.source.spec_bytes().len();
    let ghost src = ctx.source.spec_bytes();
    let ghost sv = str_views(scope@);
    let ghost start = out.symbols@;
    proof {
        lemma_all_children_spans_ok(*parent, len);
    }
    let sibs = &parent.children;
    let mut i: usize = 0;
    while i < sibs.len()
        invariant
            sibs == &parent.children,
            i <= sibs@.len(),
            len == ctx.source.spec_bytes().len(),
            all_spans_ok(sibs@, len),
            ctx_ok(*out, *ctx),
            new_from(old(out).symbols@, out.symbols@, *parent),
            rel_extends(old(out).relations@, out.relations@),
            extends(start, out.symbols@),
            start == old(out).symbols@,
            owner_ok(out.symbols@, scope_id),
            src == ctx.source.spec_bytes(),
            sv == str_views(scope@),
            forall|j: int| 0 <= j < i ==> java_member_held(src, out.symbols@, out.relations@, #[trigger] sibs@[j], sv, top, scope_id),
        decreases sibs@.len() - i,
    {
        let child = &sibs[i];
        let ghost before = out.symbols@;
        let ghost rbefore = out.relations@;
        proof {
            lemma_java_kinds_distinct();
        }
        let k = child.kind.as_str();
        if str_eq(k, "class_declaration") {
            extract_type(ctx, sibs, i, scope, scope_id, SymbolKind::Class, out);
        } else if str_eq(k, "interface_declaration") {
            extract_type(ctx, sibs, i, scope, scope_id, SymbolKind::Interface, out);
        } else if str_eq(k, "enum_declaration") {
            extract_type(ctx, sibs, i, scope, scope_id, SymbolKind::Enum, out);
        } else if top && str_eq(k, "import_declaration") {
            extract_import(ctx, child, scope_id, out);
            proof {
                lemma_appended_has(rbefore, out.relations@, scope_id, RelationKind::Imports, nonempty_texts_of_kind(src, child.children@, "scoped_identifier"@, child.children@.len() as int));
            }
        } else if !top && (str_eq(k, "method_declaration") || str_eq(k, "constructor_declaration")) {
            extract_method(ctx, sibs, i, scope, scope_id, out);
            proof {
                let kk = before.len() as int;
                match java_member_symbol(src, *child, top) {
                    Some(t) => {
                        assert(symbol_is(out.symbols@[kk], t.0, join_dotted(sv.push(t.0)), t.1, *child));
                        assert(java_member_body(src, out.symbols@, out.relations@, *child, sv.push(t.0), out.symbols@[kk].id));
                    },
                    None => {},
                }
            }
        } else if !top && str_eq(k, "field_declaration") {
            extract_field(ctx, child, scope, scope_id, out);
            proof {
                let idx = java_field_vars(src, child.children@, child.children@.len() as int);
                let kind = if (modifier_among(child.children@, "static"@, child.children@.len() as int) && modifier_among(child.children@, "final"@, child.children@.len() as int)) {
                    SymbolKind::Constant
                } else {
                    SymbolKind::Variable
                };
                assert forall|q: int| 0 <= q < idx.len() implies has_symbol(
                    out.symbols@,
                    field_or(src, child.children@[#[trigger] idx[q]], "name"@, Seq::empty()),
                    join_dotted(sv.push(field_or(src, child.children@[idx[q]], "name"@, Seq::empty()))),
                    kind,
                    child.children@[idx[q]],
                ) by {
                    assert(symbol_is(
                        out.symbols@[before.len() + q],
                        field_or(src, child.children@[idx[q]], "name"@, Seq::empty()),
                        join_dotted(sv.push(field_or(src, child.children@[idx[q]], "name"@, Seq::empty()))),
                        kind,
                        child.children@[idx[q]],
                    ));
                }
            }
        }
        proof {
            lemma_extends_owner(before, out.symbols@, scope_id);
            lemma_new_from_child(old(out).symbols@, before, out.symbols@, *parent, i as int);
            assert(java_member_held(src, out.symbols@, out.relations@, *child, sv, top, scope_id));
            assert forall|j: int| 0 <= j < i + 1 implies java_member_held(src, out.symbols@, out.relations@, #[trigger] sibs@[j], sv, top, scope_id) by {
                if j < i {
                    lemma_java_member_extends(src, before, out.symbols@, rbefore, out.relations@, sibs@[j], sv, top, scope_id);
                }
            }
        }
        i = i + 1;
    }
}

/// A class, interface or enum: its symbol, containment, heritage, and the
/// members of its body.
fn extract_type<'a, 's>(
    ctx: &VisitorContext<'a>,
    sibs: &Vec<SyntaxNode>,
    idx: usize,
    scope: &[&'s str],
    scope_id: SymbolId,
    kind: SymbolKind,
    out: &mut ParseOutput,
) where 'a: 's
    requires
        sib_pre(*old(out), *ctx, sibs@, idx as int, scope_id),
    ensures
        visit_post(*old(out), *final(out), *ctx),
        new_from(old(out).symbols@, final(out).symbols@, sibs@[idx as int]),
        spec_field_text(ctx.source.spec_bytes(), sibs@[idx as int], "name"@) is None ==> *final(out) == *old(out),
        spec_field_text(ctx.source.spec_bytes(), sibs@[idx as int], "name"@) matches Some(n) ==> {
            &&& added_named(old(out).symbols@, final(out).symbols@, n, str_views(scope@), kind, sibs@[idx as int])
            &&& final(out).symbols@[old(out).symbols@.len() as int].signature matches Some(sg) && sg@ == (match kind {
                SymbolKind::Class => "class"@,
                SymbolKind::Interface => "interface"@,
                _ => "enum"@,
            }) + seq![' '] + n
            &&& opt_string(final(out).symbols@[old(out).symbols@.len() as int].doc_comment) == spec_javadoc_from(ctx.source.spec_bytes(), sibs@, idx as int)
        },
        ((sibs@[idx as int].kind@ == "class_declaration"@ && kind == SymbolKind::Class) || (sibs@[idx as int].kind@
            == "interface_declaration"@ && kind == SymbolKind::Interface) || (sibs@[idx as int].kind@ == "enum_declaration"@
            && kind == SymbolKind::Enum)) ==> forall|top: bool|
            java_member_held(ctx.source.spec_bytes(), final(out).symbols@, final(out).relations@, sibs@[idx as int], str_views(scope@), top, scope_id),
    decreases sibs@[idx as int],
{
    proof {
        lemma_java_kinds_distinct();
    }
    let ghost len = ctx.source.spec_bytes().len();
    let ghost src = ctx.source.spec_bytes();
    let ghost sv = str_views(scope@);
    let node = &sibs[idx];
    let name = match field_text(ctx, node, "name") {
        Some(n) => n,
        None => return,
    };
    let qname = qualified_name(scope, name);
    let keyword = match kind {
        SymbolKind::Class => "class",
        SymbolKind::Interface => "interface",
        _ => "enum",
    };
    let sig = keyword_signature(keyword, name);
    let doc = extract_javadoc(ctx, sibs, idx);
    let ghost before = out.symbols@;
    let sym_id = out.add_contained(ctx, node, name, qname, kind, Some(sig), doc, scope_id, node.start_row);
    let ghost k = before.len() as int;
    let ghost inner = sv.push(name@);
    assert(out.symbols@[k].id == sym_id);
    let ghost r0 = out.relations@;
    let ghost inh = clause_names(src, *node, "superclass"@, "extends_interfaces"@, node.children@.len() as int);
    let ghost imp = clause_names(src, *node, "super_interfaces"@, "interfaces"@, node.children@.len() as int);
    match kind {
        SymbolKind::Class => {
            extract_extends(ctx, node, sym_id, out);
            let ghost r1 = out.relations@;
            extract_implements(ctx, node, sym_id, out);
            proof {
                lemma_appended_has(r0, r1, sym_id, RelationKind::Inherits, inh);
                lemma_relations_to_extends(r1, out.relations@, sym_id, RelationKind::Inherits, inh);
                lemma_appended_has(r1, out.relations@, sym_id, RelationKind::Implements, imp);
            }
        },
        SymbolKind::Interface => {
            extract_extends(ctx, node, sym_id, out);
            proof {
                lemma_appended_has(r0, out.relations@, sym_id, RelationKind::Inherits, inh);
            }
        },
        _ => {},
    }
    let ghost s2 = out.symbols@;
    let ghost r2 = out.relations@;
    if let Some(body) = child_by_field(node, "body") {
        proof {
            lemma_child_spans_ok(*node, len, body as int);
        }
        let new_scope = extend_scope(scope, name);
        assert(str_views(new_scope@) =~= inner);
        match kind {
            SymbolKind::Enum => extract_enum_body(ctx, &node.children[body], new_scope.as_slice(), sym_id, out),
            _ => extract_members(ctx, &node.children[body], new_scope.as_slice(), sym_id, false, out),
        }
        proof {
            if kind == SymbolKind::Class || kind == SymbolKind::Interface {
                lemma_relations_to_extends(r2, out.relations@, sym_id, RelationKind::Inherits, inh);
            }
            if kind == SymbolKind::Class {
                lemma_relations_to_extends(r2, out.relations@, sym_id, RelationKind::Implements, imp);
            }
        }
    }
    proof {
        assert(out.symbols@[k] == s2[k]);
        if node.kind@ == "class_declaration"@ && kind == SymbolKind::Class {
            assert(has_relations_to(out.relations@, sym_id, RelationKind::Inherits, inh));
            assert(has_relations_to(out.relations@, sym_id, RelationKind::Implements, imp));
            assert(java_member_body(src, out.symbols@, out.relations@, *node, inner, out.symbols@[k].id));
        }
        if node.kind@ == "interface_declaration"@ && kind == SymbolKind::Interface {
            assert(java_member_body(src, out.symbols@, out.relations@, *node, inner, out.symbols@[k].id));
        }
        if node.kind@ == "enum_declaration"@ && kind == SymbolKind::Enum {
            assert(java_member_body(src, out.symbols@, out.relations@, *node, inner, out.symbols@[k].id));
        }
    }
}

/// `syms` holds what an item of an enum body declares: a constant with a
/// non-empty name, or the methods and constructors among its body
/// declarations.
pub open spec fn java_enum_item_held(
    src: Seq<u8>,
    syms: Seq<CodeSymbol>,
    rels: Seq<CodeRelation>,
    c: SyntaxNode,
    scope: Seq<Seq<char>>,
    owner: SymbolId,
) -> bool
    decreases c, 0int,
{
    if c.kind@ == "enum_body_declarations"@ {
        forall|j: int|
            0 <= j < c.children@.len() && ((#[trigger] c.children@[j]).kind@ == "method_declaration"@ || c.children@[j].kind@
                == "constructor_declaration"@) ==> java_member_held(src, syms, rels, c.children@[j], scope, false, owner)
    } else if c.kind@ == "enum_constant"@ {
        match spec_field_text(src, c, "name"@) {
            Some(n) => n.len() > 0 ==> has_symbol(syms, n, join_dotted(scope.push(n)), SymbolKind::Constant, c),
            None => true,
        }
    } else {
        true
    }
}

/// What an item of an enum body declares stays held as the list grows.
pub proof fn lemma_java_enum_item_extends(
    src: Seq<u8>,
    a: Seq<CodeSymbol>,
    b: Seq<CodeSymbol>,
    ra: Seq<CodeRelation>,
    rb: Seq<CodeRelation>,
    c: SyntaxNode,
    scope: Seq<Seq<char>>,
    owner: SymbolId,
)
    requires
        extends(a, b),
        rel_extends(ra, rb),
        java_enum_item_held(src, a, ra, c, scope, owner),
    ensures
        java_enum_item_held(src, b, rb, c, scope, owner),
    decreases c, 0int,
{
    if c.kind@ == "enum_body_declarations"@ {
        assert forall|j: int|
            0 <= j < c.children@.len() && ((#[trigger] c.children@[j]).kind@ == "method_declaration"@ || c.children@[j].kind@
                == "constructor_declaration"@) implies java_member_held(src, b, rb, c.children@[j], scope, false, owner) by {
            lemma_java_member_extends(src, a, b, ra, rb, c.children@[j], scope, false, owner);
        }
    } else if c.kind@ == "enum_constant"@ {
        match spec_field_text(src, c, "name"@) {
            Some(n) => if n.len() > 0 {
                lemma_has_extends(a, b, n, join_dotted(scope.push(n)), SymbolKind::Constant, c);
            },
            None => {},
        }
    }
}

/// An enum body: its constants, and the methods and constructors among its
/// body declarations.
fn extract_enum_body<'s>(
    ctx: &VisitorContext,
    body: &SyntaxNode,
    scope: &[&'s str],
    enum_id: SymbolId,
    out: &mut ParseOutput,
)
    requires
        visit_pre(*old(out), *ctx, *body, enum_id),
    ensures
        visit_post(*old(out), *final(out), *ctx),
        new_from(old(out).symbols@, final(out).symbols@, *body),
        forall|i: int|
            0 <= i < body.children@.len() ==> java_enum_item_held(
                ctx.source.spec_bytes(),
                final(out).symbols@,
                final(out).relations@,
                #[trigger] body.children@[i],
                str_views(scope@),
                enum_id,
            ),
{
    let ghost len = ctx.source.spec_bytes().len();
    let ghost src = ctx.source.spec_bytes();
    let ghost sv = str_views(scope@);
    let ghost start = out.symbols@;
    let mut i: usize = 0;
    while i < body.children.len()
        invariant
            i <= body.children@.len(),
            len == ctx.source.spec_bytes().len(),
            spans_ok(*body, len),
            ctx_ok(*out, *ctx),
            new_from(old(out).symbols@, out.symbols@, *body),
            rel_extends(old(out).relations@, out.relations@),
            extends(start, out.symbols@),
            start == old(out).symbols@,
            owner_ok(out.symbols@, enum_id),
            src == ctx.source.spec_bytes(),
            sv == str_views(scope@),
            forall|q: int| 0 <= q < i ==> java_enum_item_held(src, out.symbols@, out.relations@, #[trigger] body.children@[q], sv, enum_id),
        decreases body.children@.len() - i,
    {
        let child = &body.children[i];
        proof {
            lemma_child_spans_ok(*body, len, i as int);
            lemma_all_children_spans_ok(*child, len);
        }
        let ghost before = out.symbols@;
        let ghost rbefore = out.relations@;
        if str_eq(child.kind.as_str(), "enum_body_declarations") {
            let decls = &child.children;
            let mut j: usize = 0;
            while j < decls.len()
                invariant
                    decls == &child.children,
                    j <= decls@.len(),
                    len == ctx.source.spec_bytes().len(),
                    all_spans_ok(decls@, len),
                    ctx_ok(*out, *ctx),
                    new_from(before, out.symbols@, *child),
                    rel_extends(old(out).relations@, out.relations@),
                    extends(before, out.symbols@),
                    owner_ok(out.symbols@, enum_id),
                    src == ctx.source.spec_bytes(),
                    sv == str_views(scope@),
                    rel_extends(rbefore, out.relations@),
                    forall|q: int|
                        0 <= q < j && ((#[trigger] decls@[q]).kind@ == "method_declaration"@ || decls@[q].kind@
                            == "constructor_declaration"@) ==> java_member_held(src, out.symbols@, out.relations@, decls@[q], sv, false, enum_id),
                decreases decls@.len() - j,
            {
                let ghost mid = out.symbols@;
                let ghost rmid = out.relations@;
                proof {
                    lemma_java_kinds_distinct();
                }
                let k = decls[j].kind.as_str();
                if str_eq(k, "method_declaration") || str_eq(k, "constructor_declaration") {
                    extract_method(ctx, decls, j, scope, enum_id, out);
                    proof {
                        let kk = mid.len() as int;
                        match java_member_symbol(src, decls@[j as int], false) {
                            Some(t) => {
                                assert(symbol_is(out.symbols@[kk], t.0, join_dotted(sv.push(t.0)), t.1, decls@[j as int]));
                                assert(java_member_body(src, out.symbols@, out.relations@, decls@[j as int], sv.push(t.0), out.symbols@[kk].id));
                            },
                            None => {},
                        }
                    }
                }
                proof {
                    lemma_extends_owner(mid, out.symbols@, enum_id);
                    lemma_new_from_child(before, mid, out.symbols@, *child, j as int);
                    assert forall|q: int|
                        0 <= q < j + 1 && ((#[trigger] decls@[q]).kind@ == "method_declaration"@ || decls@[q].kind@
                            == "constructor_declaration"@) implies java_member_held(src, out.symbols@, out.relations@, decls@[q], sv, false, enum_id) by {
                        if q < j {
                            lemma_java_member_extends(src, mid, out.symbols@, rmid, out.relations@, decls@[q], sv, false, enum_id);
                        }
                    }
                }
                j = j + 1;
            }
        } else if str_eq(child.kind.as_str(), "enum_constant") {
            if let Some(name) = field_text(ctx, child, "name") {
                if name.unicode_len() > 0 {
                    let qname = qualified_name(scope, name);
                    let sym_id = out.add_contained(ctx, child, name, qname, SymbolKind::Constant, None, None, enum_id, child.start_row);
                    proof {
                        lemma_added_has(before, out.symbols@, name@, sv, SymbolKind::Constant, *child);
                    }
                }
            }
        }
        proof {
            lemma_extends_owner(before, out.symbols@, enum_id);
            lemma_new_from_child(old(out).symbols@, before, out.symbols@, *body, i as int);
            assert forall|q: int| 0 <= q < i + 1 implies java_enum_item_held(src, out.symbols@, out.relations@, #[trigger] body.children@[q], sv, enum_id) by {
                if q < i {
                    lemma_java_enum_item_extends(src, before, out.symbols@, rbefore, out.relations@, body.children@[q], sv, enum_id);
                } else {
                    assert(java_enum_item_held(src, out.symbols@, out.relations@, *child, sv, enum_id));
                }
            }
        }
        i = i + 1;
    }
}

/// A method or constructor: its symbol, containment and the calls in its
/// body.
fn extract_method<'s>(
    ctx: &VisitorContext,
    sibs: &Vec<SyntaxNode>,
    idx: usize,
    scope: &[&'s str],
    class_id: SymbolId,
    out: &mut ParseOutput,
)
    requires
        sib_pre(*old(out), *ctx, sibs@, idx as int, class_id),
    ensures
        visit_post(*old(out), *final(out), *ctx),
        new_from(old(out).symbols@, final(out).symbols@, sibs@[idx as int]),
        !(spec_field_text(ctx.source.spec_bytes(), sibs@[idx as int], "name"@) matches Some(n) && n.len() > 0) ==> *final(out) == *old(out),
        spec_field_text(ctx.source.spec_bytes(), sibs@[idx as int], "name"@) matches Some(n) ==> n.len() > 0 ==> {
            &&& added_named(old(out).symbols@, final(out).symbols@, n, str_views(scope@), SymbolKind::Method, sibs@[idx as int])
            &&& final(out).symbols@[old(out).symbols@.len() as int].signature matches Some(sg) && sg@ == field_after(ctx.source.spec_bytes(), sibs@[idx as int], "type"@, Seq::empty()) + (if spec_field_text(
                ctx.source.spec_bytes(),
                sibs@[idx as int],
                "type"@,
            ) is Some {
                seq![' ']
            } else {
                Seq::empty()
            }) + n + field_or(ctx.source.spec_bytes(), sibs@[idx as int], "parameters"@, "()"@)
            &&& opt_string(final(out).symbols@[old(out).symbols@.len() as int].doc_comment) == spec_javadoc_from(ctx.source.spec_bytes(), sibs@, idx as int)
            &&& (spec_child_by_field(sibs@[idx as int], "body"@) matches Some(b) ==> has_relations_to(
                final(out).relations@,
                final(out).symbols@[old(out).symbols@.len() as int].id,
                RelationKind::Calls,
                java_calls_names(ctx.source.spec_bytes(), sibs@[idx as int].children@[b]),
            ))
        },
{
    let ghost len = ctx.source.spec_bytes().len();
    let node = &sibs[idx];
    let name = match field_text(ctx, node, "name") {
        Some(n) => n,
        None => return,
    };
    if name.unicode_len() == 0 {
        return;
    }
    let qname = qualified_name(scope, name);
    let signature = build_method_signature(ctx, node, name);
    let doc = extract_javadoc(ctx, sibs, idx);
    let ghost k = out.symbols@.len() as int;
    let sym_id = out.add_contained(ctx, node, name, qname, SymbolKind::Method, Some(signature), doc, class_id, node.start_row);
    assert(out.symbols@[k].id == sym_id);
    if let Some(body) = child_by_field(node, "body") {
        proof {
            lemma_child_spans_ok(*node, len, body as int);
        }
        let ghost r0 = out.relations@;
        extract_calls(ctx, &node.children[body], sym_id, out);
        proof {
            lemma_appended_has(r0, out.relations@, sym_id, RelationKind::Calls, java_calls_names(ctx.source.spec_bytes(), node.children@[body as int]));
        }
    }
}

/// Some of the first `n` nodes is of kind `k`.
pub open spec fn kind_among(ch: Seq<SyntaxNode>, k: Seq<char>, n: int) -> bool
    decreases n,
{
    n > 0 && (ch[n - 1].kind@ == k || kind_among(ch, k, n - 1))
}

/// Some `modifiers` node among the first `n` children holds a node of kind
/// `k`.
pub open spec fn modifier_among(ch: Seq<SyntaxNode>, k: Seq<char>, n: int) -> bool
    decreases n,
{
    n > 0 && ((ch[n - 1].kind@ == "modifiers"@ && kind_among(ch[n - 1].children@, k, ch[n - 1].children@.len() as int))
        || modifier_among(ch, k, n - 1))
}

/// Whether a field declaration's modifiers hold both `static` and `final`.
fn is_static_final(node: &SyntaxNode) -> (r: bool)
    ensures
        r == (modifier_among(node.children@, "static"@, node.children@.len() as int) && modifier_among(
            node.children@,
            "final"@,
            node.children@.len() as int,
        )),
{
    proof {
        reveal_strlit("static");
        reveal_strlit("final");
        assert("static"@ != "final"@) by {
            assert("static"@.len() != "final"@.len());
        }
    }
    let mut has_static = false;
    let mut has_final = false;
    let mut i: usize = 0;
    while i < node.children.len()
        invariant
            i <= node.children@.len(),
            has_static == modifier_among(node.children@, "static"@, i as int),
            has_final == modifier_among(node.children@, "final"@, i as int),
            "static"@ != "final"@,
        decreases node.children@.len() - i,
    {
        let child = &node.children[i];
        if str_eq(child.kind.as_str(), "modifiers") {
            let mut j: usize = 0;
            while j < child.children.len()
                invariant
                    j <= child.children@.len(),
                    child == node.children@[i as int],
                    child.kind@ == "modifiers"@,
                    has_static == (modifier_among(node.children@, "static"@, i as int) || kind_among(
                        child.children@,
                        "static"@,
                        j as int,
                    )),
                    has_final == (modifier_among(node.children@, "final"@, i as int) || kind_among(
                        child.children@,
                        "final"@,
                        j as int,
                    )),
                    "static"@ != "final"@,
                decreases child.children@.len() - j,
            {
                let k = child.children[j].kind.as_str();
                if str_eq(k, "static") {
                    has_static = true;
                } else if str_eq(k, "final") {
                    has_final = true;
                }
                j = j + 1;
            }
        }
        i = i + 1;
    }
    has_static && has_final
}

/// The indices of the variable declarators among `ch[..i]` whose name is
/// not empty.
pub open spec fn java_field_vars(src: Seq<u8>, ch: Seq<SyntaxNode>, i: int) -> Seq<int>
    decreases i,
{
    if i <= 0 || i > ch.len() {
        Seq::empty()
    } else if ch[i - 1].kind@ == "variable_declarator"@ && (match spec_field_text(src, ch[i - 1], "name"@) {
        Some(t) => t.len() > 0,
        None => false,
    }) {
        java_field_vars(src, ch, i - 1).push(i - 1)
    } else {
        java_field_vars(src, ch, i - 1)
    }
}

/// The variables a field declaration declares: constants when the field is
/// `static final`, variables otherwise.
fn extract_field<'s>(
    ctx: &VisitorContext,
    node: &SyntaxNode,
    scope: &[&'s str],
    class_id: SymbolId,
    out: &mut ParseOutput,
)
    requires
        visit_pre(*old(out), *ctx, *node, class_id),
    ensures
        visit_post(*old(out), *final(out), *ctx),
        new_from(old(out).symbols@, final(out).symbols@, *node),
        children_added(
            ctx.source.spec_bytes(),
            old(out).symbols@,
            final(out).symbols@,
            node.children@,
            java_field_vars(ctx.source.spec_bytes(), node.children@, node.children@.len() as int),
            str_views(scope@),
            if (modifier_among(node.children@, "static"@, node.children@.len() as int) && modifier_among(node.children@, "final"@, node.children@.len() as int)) { SymbolKind::Constant } else { SymbolKind::Variable },
        ),
{
    let ghost len = ctx.source.spec_bytes().len();
    let ghost src = ctx.source.spec_bytes();
    let ghost start = out.symbols@;
    let kind = if is_static_final(node) {
        SymbolKind::Constant
    } else {
        SymbolKind::Variable
    };
    assert(start.take(start.len() as int) =~= start);
    let mut i: usize = 0;
    while i < node.children.len()
        invariant
            i <= node.children@.len(),
            len == ctx.source.spec_bytes().len(),
            src == ctx.source.spec_bytes(),
            start == old(out).symbols@,
            kind == (if (modifier_among(node.children@, "static"@, node.children@.len() as int) && modifier_among(node.children@, "final"@, node.children@.len() as int)) { SymbolKind::Constant } else { SymbolKind::Variable }),
            spans_ok(*node, len),
            ctx_ok(*out, *ctx),
            new_from(old(out).symbols@, out.symbols@, *node),
            rel_extends(old(out).relations@, out.relations@),
            extends(start, out.symbols@),
            start == old(out).symbols@,
            owner_ok(out.symbols@, class_id),
            children_added(src, start, out.symbols@, node.children@, java_field_vars(src, node.children@, i as int), str_views(scope@), kind),
        decreases node.children@.len() - i,
    {
        let child = &node.children[i];
        proof {
            lemma_child_spans_ok(*node, len, i as int);
        }
        let ghost before = out.symbols@;
        if str_eq(child.kind.as_str(), "variable_declarator") {
            if let Some(name) = field_text(ctx, child, "name") {
                if name.unicode_len() > 0 {
                    let qname = qualified_name(scope, name);
                    let sym_id = out.add_contained(ctx, child, name, qname, kind, None, None, class_id, child.start_row);
                    proof {
                        let idx = java_field_vars(src, node.children@, i as int);
                        assert(java_field_vars(src, node.children@, i + 1) == idx.push(i as int));
                        assert(out.symbols@.take(start.len() as int) =~= before.take(start.len() as int));
                        assert forall|k: int| 0 <= k < idx.push(i as int).len() implies symbol_is(
                            #[trigger] out.symbols@[start.len() + k],
                            field_or(src, node.children@[idx.push(i as int)[k]], "name"@, Seq::empty()),
                            join_dotted(str_views(scope@).push(field_or(src, node.children@[idx.push(i as int)[k]], "name"@, Seq::empty()))),
                            kind,
                            node.children@[idx.push(i as int)[k]],
                        ) by {
                            if k < idx.len() {
                                assert(out.symbols@[start.len() + k] == before[start.len() + k]);
                            }
                        }
                    }
                }
            }
        }
        proof {
            lemma_extends_owner(before, out.symbols@, class_id);
            lemma_new_from_child(old(out).symbols@, before, out.symbols@, *node, i as int);
        }
        i = i + 1;
    }
}

/// Inheritance relations from a class's superclass or an interface's
/// extended interfaces.
fn extract_extends(ctx: &VisitorContext, node: &SyntaxNode, type_id: SymbolId, out: &mut ParseOutput)
    requires
        visit_pre(*old(out), *ctx, *node, type_id),
    ensures
        visit_post(*old(out), *final(out), *ctx),
        new_from(old(out).symbols@, final(out).symbols@, *node),
        final(out).symbols@ == old(out).symbols@,
        appended_to_phantoms(
            old(out).relations@,
            final(out).relations@,
            type_id,
            RelationKind::Inherits,
            clause_names(ctx.source.spec_bytes(), *node, "superclass"@, "extends_interfaces"@, node.children@.len() as int),
        ),
{
    extract_clauses(ctx, node, type_id, "superclass", "extends_interfaces", RelationKind::Inherits, out);
}

/// Implementation relations from a class's implemented interfaces.
fn extract_implements(ctx: &VisitorContext, node: &SyntaxNode, type_id: SymbolId, out: &mut ParseOutput)
    requires
        visit_pre(*old(out), *ctx, *node, type_id),
    ensures
        visit_post(*old(out), *final(out), *ctx),
        new_from(old(out).symbols@, final(out).symbols@, *node),
        final(out).symbols@ == old(out).symbols@,
        appended_to_phantoms(
            old(out).relations@,
            final(out).relations@,
            type_id,
            RelationKind::Implements,
            clause_names(ctx.source.spec_bytes(), *node, "super_interfaces"@, "interfaces"@, node.children@.len() as int),
        ),
{
    extract_clauses(ctx, node, type_id, "super_interfaces", "interfaces", RelationKind::Implements, out);
}

/// The types a type list names, in order: each type identifier by its
/// text, each generic type by its first child's text (empty names left
/// out), and those of nested type lists.
pub open spec fn type_list_names(src: Seq<u8>, node: SyntaxNode) -> Seq<Seq<char>>
    decreases node, node.children@.len() + 1,
{
    type_list_names_upto(src, node, node.children@.len() as int)
}

/// `type_list_names` over the first `n` children.
pub open spec fn type_list_names_upto(src: Seq<u8>, node: SyntaxNode, n: int) -> Seq<Seq<char>>
    decreases node, n,
{
    if n <= 0 || n > node.children@.len() {
        Seq::empty()
    } else {
        let prev = type_list_names_upto(src, node, n - 1);
        let c = node.children@[n - 1];
        let k = c.kind@;
        if k == "type_identifier"@ || k == "generic_type"@ {
            let name = if k == "generic_type"@ {
                if c.children@.len() > 0 { spec_node_text(src, c.children@[0]) } else { Seq::empty() }
            } else {
                spec_node_text(src, c)
            };
            if name.len() > 0 { prev.push(name) } else { prev }
        } else if k == "type_list"@ || k == "interface_type_list"@ {
            prev + type_list_names(src, c)
        } else {
            prev
        }
    }
}

/// A type list names each generic type by its bare type name, the text of
/// its first child (without type arguments), and each plain type by its
/// text, whenever that name is not empty.
pub proof fn lemma_type_list_bare_names(src: Seq<u8>, node: SyntaxNode)
    ensures
        forall|k: int|
            0 <= k < node.children@.len() && (#[trigger] node.children@[k]).kind@ == "generic_type"@
                && node.children@[k].children@.len() > 0 && spec_node_text(src, node.children@[k].children@[0]).len() > 0
                ==> type_list_names(src, node).contains(spec_node_text(src, node.children@[k].children@[0])),
        forall|k: int|
            0 <= k < node.children@.len() && (#[trigger] node.children@[k]).kind@ == "type_identifier"@ && spec_node_text(
                src,
                node.children@[k],
            ).len() > 0 ==> type_list_names(src, node).contains(spec_node_text(src, node.children@[k])),
{
    lemma_type_list_upto_names(src, node, node.children@.len() as int);
}

proof fn lemma_type_list_upto_names(src: Seq<u8>, node: SyntaxNode, n: int)
    requires
        0 <= n <= node.children@.len(),
    ensures
        forall|k: int|
            0 <= k < n && (#[trigger] node.children@[k]).kind@ == "generic_type"@ && node.children@[k].children@.len() > 0
                && spec_node_text(src, node.children@[k].children@[0]).len() > 0 ==> type_list_names_upto(src, node, n).contains(
                spec_node_text(src, node.children@[k].children@[0]),
            ),
        forall|k: int|
            0 <= k < n && (#[trigger] node.children@[k]).kind@ == "type_identifier"@ && spec_node_text(src, node.children@[k]).len()
                > 0 ==> type_list_names_upto(src, node, n).contains(spec_node_text(src, node.children@[k])),
    decreases n,
{
    reveal_strlit("generic_type");
    reveal_strlit("type_identifier");
    assert("generic_type"@.len() != "type_identifier"@.len());
    if n > 0 {
        lemma_type_list_upto_names(src, node, n - 1);
        let prev = type_list_names_upto(src, node, n - 1);
        let cur = type_list_names_upto(src, node, n);
        assert forall|x: Seq<char>| prev.contains(x) implies cur.contains(x) by {
            let i = choose|i: int| 0 <= i < prev.len() && prev[i] == x;
            let c = node.children@[n - 1];
            if c.kind@ == "type_identifier"@ || c.kind@ == "generic_type"@ {
                if cur.len() > prev.len() {
                    assert(cur[i] == prev[i]);
                }
            } else if c.kind@ == "type_list"@ || c.kind@ == "interface_type_list"@ {
                assert(cur[i] == prev[i]);
            }
        }
        let c = node.children@[n - 1];
        if c.kind@ == "generic_type"@ && c.children@.len() > 0 && spec_node_text(src, c.children@[0]).len() > 0 {
            assert(cur[cur.len() - 1] == spec_node_text(src, c.children@[0]));
        }
        if c.kind@ == "type_identifier"@ && spec_node_text(src, c).len() > 0 {
            assert(cur[cur.len() - 1] == spec_node_text(src, c));
        }
    }
}

/// The types named by the first `n` children of kind `a` or `b`, in order.
pub open spec fn clause_names(src: Seq<u8>, node: SyntaxNode, a: Seq<char>, b: Seq<char>, n: int) -> Seq<Seq<char>>
    decreases n,
{
    if n <= 0 || n > node.children@.len() {
        Seq::empty()
    } else {
        let prev = clause_names(src, node, a, b, n - 1);
        let c = node.children@[n - 1];
        if c.kind@ == a || c.kind@ == b { prev + type_list_names(src, c) } else { prev }
    }
}

/// A type list names nothing else: each name is the text of a plain type
/// child, the bare name (first child's text) of a generic type child, or a
/// name of a nested type list.
pub proof fn lemma_type_list_names_sound(src: Seq<u8>, node: SyntaxNode, n: int)
    requires
        0 <= n <= node.children@.len(),
    ensures
        forall|x: int|
            0 <= x < type_list_names_upto(src, node, n).len() ==> exists|k: int|
                0 <= k < n && type_list_named_by(src, #[trigger] type_list_names_upto(src, node, n)[x], node.children@[k]),
    decreases n,
{
    reveal_strlit("generic_type");
    reveal_strlit("type_identifier");
    reveal_strlit("type_list");
    reveal_strlit("interface_type_list");
    assert("type_list"@.len() != "type_identifier"@.len());
    assert("type_list"@.len() != "generic_type"@.len());
    assert("interface_type_list"@.len() != "type_identifier"@.len());
    assert("interface_type_list"@.len() != "generic_type"@.len());
    assert("generic_type"@.len() != "type_identifier"@.len());
    if n > 0 {
        lemma_type_list_names_sound(src, node, n - 1);
        let prev = type_list_names_upto(src, node, n - 1);
        let cur = type_list_names_upto(src, node, n);
        let c = node.children@[n - 1];
        assert forall|x: int| 0 <= x < cur.len() implies exists|k: int|
            0 <= k < n && type_list_named_by(src, #[trigger] cur[x], node.children@[k]) by {
            if x < prev.len() {
                assert(cur[x] == prev[x]);
                let k = choose|k: int| 0 <= k < n - 1 && type_list_named_by(src, #[trigger] prev[x], node.children@[k]);
                assert(type_list_named_by(src, cur[x], node.children@[k]));
            } else {
                if c.kind@ == "type_list"@ || c.kind@ == "interface_type_list"@ {
                    assert(cur == prev + type_list_names(src, c));
                    assert(cur[x] == type_list_names(src, c)[x - prev.len()]);
                    assert(type_list_names(src, c).contains(cur[x]));
                }
                assert(type_list_named_by(src, cur[x], node.children@[n - 1]));
            }
        }
    }
}

/// `x` is a name a type list child gives: a plain type's text, a generic
/// type's first child's text, or a name of a nested type list.
pub open spec fn type_list_named_by(src: Seq<u8>, x: Seq<char>, c: SyntaxNode) -> bool {
    ||| (c.kind@ == "type_identifier"@ && x == spec_node_text(src, c))
    ||| (c.kind@ == "generic_type"@ && c.children@.len() > 0 && x == spec_node_text(src, c.children@[0]))
    ||| ((c.kind@ == "type_list"@ || c.kind@ == "interface_type_list"@) && type_list_names(src, c).contains(x))
}

/// A type list names every type its nested type lists name.
pub proof fn lemma_type_list_nested(src: Seq<u8>, node: SyntaxNode, k: int)
    requires
        0 <= k < node.children@.len(),
        node.children@[k].kind@ == "type_list"@ || node.children@[k].kind@ == "interface_type_list"@,
    ensures
        forall|x: Seq<char>| type_list_names(src, node.children@[k]).contains(x) ==> #[trigger] type_list_names(src, node).contains(x),
{
    lemma_type_list_nested_upto(src, node, k, node.children@.len() as int);
    assert(type_list_names(src, node) == type_list_names_upto(src, node, node.children@.len() as int));
}

proof fn lemma_type_list_nested_upto(src: Seq<u8>, node: SyntaxNode, k: int, n: int)
    requires
        0 <= k < n <= node.children@.len(),
        node.children@[k].kind@ == "type_list"@ || node.children@[k].kind@ == "interface_type_list"@,
    ensures
        forall|x: Seq<char>| type_list_names(src, node.children@[k]).contains(x) ==> #[trigger] type_list_names_upto(src, node, n).contains(x),
    decreases n,
{
    reveal_strlit("generic_type");
    reveal_strlit("type_identifier");
    reveal_strlit("type_list");
    reveal_strlit("interface_type_list");
    assert("type_list"@.len() != "type_identifier"@.len());
    assert("type_list"@.len() != "generic_type"@.len());
    assert("interface_type_list"@.len() != "type_identifier"@.len());
    assert("interface_type_list"@.len() != "generic_type"@.len());
    let inner = type_list_names(src, node.children@[k]);
    let prev = type_list_names_upto(src, node, n - 1);
    let cur = type_list_names_upto(src, node, n);
    assert forall|x: Seq<char>| inner.contains(x) implies #[trigger] cur.contains(x) by {
        let i = choose|i: int| 0 <= i < inner.len() && inner[i] == x;
        if k == n - 1 {
            assert(cur == prev + inner);
            assert(cur[prev.len() + i] == x);
        } else {
            lemma_type_list_nested_upto(src, node, k, n - 1);
            assert(prev.contains(x));
            let j = choose|j: int| 0 <= j < prev.len() && prev[j] == x;
            assert(cur[j] == prev[j]);
        }
    }
}

/// The names of a type's clauses hold every type that the type list of
/// each clause of either kind names.
pub proof fn lemma_clause_names_hold(src: Seq<u8>, node: SyntaxNode, a: Seq<char>, b: Seq<char>, k: int, n: int)
    requires
        0 <= k < n <= node.children@.len(),
        node.children@[k].kind@ == a || node.children@[k].kind@ == b,
    ensures
        forall|x: Seq<char>| type_list_names(src, node.children@[k]).contains(x) ==> #[trigger] clause_names(src, node, a, b, n).contains(x),
    decreases n,
{
    let inner = type_list_names(src, node.children@[k]);
    let prev = clause_names(src, node, a, b, n - 1);
    let cur = clause_names(src, node, a, b, n);
    assert forall|x: Seq<char>| inner.contains(x) implies #[trigger] cur.contains(x) by {
        let i = choose|i: int| 0 <= i < inner.len() && inner[i] == x;
        if k == n - 1 {
            assert(cur[prev.len() + i] == x);
        } else {
            lemma_clause_names_hold(src, node, a, b, k, n - 1);
            assert(prev.contains(x));
            let j = choose|j: int| 0 <= j < prev.len() && prev[j] == x;
            let c = node.children@[n - 1];
            if c.kind@ == a || c.kind@ == b {
                assert(cur[j] == prev[j]);
            }
        }
    }
}

/// Relations of the given kind for the types listed in the node's children
/// of either clause kind.
fn extract_clauses(
    ctx: &VisitorContext,
    node: &SyntaxNode,
    type_id: SymbolId,
    clause_a: &str,
    clause_b: &str,
    kind: RelationKind,
    out: &mut ParseOutput,
)
    requires
        visit_pre(*old(out), *ctx, *node, type_id),
        kind != RelationKind::Contains,
    ensures
        visit_post(*old(out), *final(out), *ctx),
        new_from(old(out).symbols@, final(out).symbols@, *node),
        final(out).symbols@ == old(out).symbols@,
        appended_to_phantoms(
            old(out).relations@,
            final(out).relations@,
            type_id,
            kind,
            clause_names(ctx.source.spec_bytes(), *node, clause_a@, clause_b@, node.children@.len() as int),
        ),
{
    let ghost len = ctx.source.spec_bytes().len();
    proof {
        lemma_append_none(old(out).relations@, type_id, kind);
    }
    let mut i: usize = 0;
    while i < node.children.len()
        invariant
            i <= node.children@.len(),
            len == ctx.source.spec_bytes().len(),
            spans_ok(*node, len),
            ctx_ok(*out, *ctx),
            new_from(old(out).symbols@, out.symbols@, *node),
            rel_extends(old(out).relations@, out.relations@),
            out.symbols@ == old(out).symbols@,
            owner_ok(out.symbols@, type_id),
            kind != RelationKind::Contains,
            appended_to_phantoms(
                old(out).relations@,
                out.relations@,
                type_id,
                kind,
                clause_names(ctx.source.spec_bytes(), *node, clause_a@, clause_b@, i as int),
            ),
        decreases node.children@.len() - i,
    {
        let child = &node.children[i];
        proof {
            lemma_child_spans_ok(*node, len, i as int);
        }
        let ghost mid = out.relations@;
        if str_eq(child.kind.as_str(), clause_a) || str_eq(child.kind.as_str(), clause_b) {
            extract_type_list(ctx, child, type_id, kind, out);
            proof {
                lemma_append_all(
                    old(out).relations@,
                    mid,
                    out.relations@,
                    type_id,
                    kind,
                    clause_names(ctx.source.spec_bytes(), *node, clause_a@, clause_b@, i as int),
                    type_list_names(ctx.source.spec_bytes(), *child),
                );
            }
        }
        i = i + 1;
    }
}

/// One relation per type named in a type list; a generic type counts by
/// its first child; nested lists are searched too.
fn extract_type_list(ctx: &VisitorContext, node: &SyntaxNode, source_id: SymbolId, kind: RelationKind, out: &mut ParseOutput)
    requires
        visit_pre(*old(out), *ctx, *node, source_id),
        kind != RelationKind::Contains,
    ensures
        visit_post(*old(out), *final(out), *ctx),
        new_from(old(out).symbols@, final(out).symbols@, *node),
        final(out).symbols@ == old(out).symbols@,
        appended_to_phantoms(
            old(out).relations@,
            final(out).relations@,
            source_id,
            kind,
            type_list_names(ctx.source.spec_bytes(), *node),
        ),
    decreases *node,
{
    let ghost len = ctx.source.spec_bytes().len();
    proof {
        lemma_append_none(old(out).relations@, source_id, kind);
        reveal_strlit("");
    }
    let mut i: usize = 0;
    while i < node.children.len()
        invariant
            i <= node.children@.len(),
            len == ctx.source.spec_bytes().len(),
            spans_ok(*node, len),
            ctx_ok(*out, *ctx),
            new_from(old(out).symbols@, out.symbols@, *node),
            rel_extends(old(out).relations@, out.relations@),
            out.symbols@ == old(out).symbols@,
            owner_ok(out.symbols@, source_id),
            kind != RelationKind::Contains,
            ""@ == Seq::<char>::empty(),
            appended_to_phantoms(
                old(out).relations@,
                out.relations@,
                source_id,
                kind,
                type_list_names_upto(ctx.source.spec_bytes(), *node, i as int),
            ),
        decreases node.children@.len() - i,
    {
        let ghost mid = out.relations@;
        let child = &node.children[i];
        proof {
            lemma_child_spans_ok(*node, len, i as int);
        }
        let k = child.kind.as_str();
        if str_eq(k, "type_identifier") || str_eq(k, "generic_type") {
            let name = if str_eq(k, "generic_type") {
                if child.children.len() > 0 {
                    proof {
                        lemma_child_spans_ok(*child, len, 0);
                    }
                    node_text(ctx, &child.children[0])
                } else {
                    ""
                }
            } else {
                node_text(ctx, child)
            };
            if name.unicode_len() > 0 {
                let target_id = phantom_of(name);
                out.add_relation(ctx, source_id, target_id, kind, child.start_row);
                proof {
                    lemma_append_phantom(
                        old(out).relations@,
                        mid,
                        out.relations@,
                        source_id,
                        kind,
                        type_list_names_upto(ctx.source.spec_bytes(), *node, i as int),
                        name@,
                    );
                }
            }
        } else if str_eq(k, "type_list") || str_eq(k, "interface_type_list") {
            extract_type_list(ctx, child, source_id, kind, out);
            proof {
                lemma_append_all(
                    old(out).relations@,
                    mid,
                    out.relations@,
                    source_id,
                    kind,
                    type_list_names_upto(ctx.source.spec_bytes(), *node, i as int),
                    type_list_names(ctx.source.spec_bytes(), *child),
                );
            }
        }
        i = i + 1;
    }
}

/// The texts of the first `n` children of kind `k` whose text is not
/// empty, in order.
pub open spec fn nonempty_texts_of_kind(src: Seq<u8>, ch: Seq<SyntaxNode>, k: Seq<char>, n: int) -> Seq<Seq<char>>
    decreases n,
{
    if n <= 0 {
        Seq::empty()
    } else {
        let prev = nonempty_texts_of_kind(src, ch, k, n - 1);
        if ch[n - 1].kind@ == k && spec_node_text(src, ch[n - 1]).len() > 0 {
            prev.push(spec_node_text(src, ch[n - 1]))
        } else {
            prev
        }
    }
}

/// Imports of the scoped names an import declaration holds.
fn extract_import(ctx: &VisitorContext, node: &SyntaxNode, scope_id: SymbolId, out: &mut ParseOutput)
    requires
        visit_pre(*old(out), *ctx, *node, scope_id),
    ensures
        visit_post(*old(out), *final(out), *ctx),
        new_from(old(out).symbols@, final(out).symbols@, *node),
        final(out).symbols@ == old(out).symbols@,
        appended_to_phantoms(
            old(out).relations@,
            final(out).relations@,
            scope_id,
            RelationKind::Imports,
            nonempty_texts_of_kind(ctx.source.spec_bytes(), node.children@, "scoped_identifier"@, node.children@.len() as int),
        ),
{
    let ghost len = ctx.source.spec_bytes().len();
    proof {
        lemma_append_none(old(out).relations@, scope_id, RelationKind::Imports);
    }
    let mut i: usize = 0;
    while i < node.children.len()
        invariant
            i <= node.children@.len(),
            len == ctx.source.spec_bytes().len(),
            spans_ok(*node, len),
            ctx_ok(*out, *ctx),
            new_from(old(out).symbols@, out.symbols@, *node),
            rel_extends(old(out).relations@, out.relations@),
            out.symbols@ == old(out).symbols@,
            owner_ok(out.symbols@, scope_id),
            appended_to_phantoms(
                old(out).relations@,
                out.relations@,
                scope_id,
                RelationKind::Imports,
                nonempty_texts_of_kind(ctx.source.spec_bytes(), node.children@, "scoped_identifier"@, i as int),
            ),
        decreases node.children@.len() - i,
    {
        let child = &node.children[i];
        proof {
            lemma_child_spans_ok(*node, len, i as int);
        }
        let ghost mid = out.relations@;
        if str_eq(child.kind.as_str(), "scoped_identifier") {
            let import_path = node_text(ctx, child);
            if import_path.unicode_len() > 0 {
                let target_id = phantom_of(import_path);
                out.add_relation(ctx, scope_id, target_id, RelationKind::Imports, node.start_row);
                proof {
                    lemma_append_phantom(
                        old(out).relations@,
                        mid,
                        out.relations@,
                        scope_id,
                        RelationKind::Imports,
                        nonempty_texts_of_kind(ctx.source.spec_bytes(), node.children@, "scoped_identifier"@, i as int),
                        import_path@,
                    );
                }
            }
        }
        i = i + 1;
    }
}

/// The callee a child names itself: a method invocation's name, after its object and a dot when it has one; an object creation's type; none when empty.
pub open spec fn java_calls_here(src: Seq<u8>, c: SyntaxNode) -> Seq<Seq<char>> {
    if c.kind@ == "method_invocation"@ {
        if spec_field_text(src, c, "name"@) is Some && spec_field_text(src, c, "name"@)->0.len() > 0 {
            seq![
                match spec_field_text(src, c, "object"@) {
                    Some(o) => o + seq!['.'] + spec_field_text(src, c, "name"@)->0,
                    None => spec_field_text(src, c, "name"@)->0,
                },
            ]
        } else {
            Seq::empty()
        }
    } else if c.kind@ == "object_creation_expression"@ && spec_field_text(src, c, "type"@) is Some && spec_field_text(src, c, "type"@)->0.len() > 0 {
        seq![spec_field_text(src, c, "type"@)->0]
    } else {
        Seq::empty()
    }
}

/// The callee names under a node, in traversal order.
pub open spec fn java_calls_names(src: Seq<u8>, node: SyntaxNode) -> Seq<Seq<char>>
    decreases node, node.children@.len() + 1,
{
    java_calls_names_upto(src, node, node.children@.len() as int)
}

/// `java_calls_names` over the first `n` children.
pub open spec fn java_calls_names_upto(src: Seq<u8>, node: SyntaxNode, n: int) -> Seq<Seq<char>>
    decreases node, n,
{
    if n <= 0 || n > node.children@.len() {
        Seq::empty()
    } else {
        let c = node.children@[n - 1];
        java_calls_names_upto(src, node, n - 1) + java_calls_here(src, c) + if c.kind@ != "class_declaration"@ && c.kind@ != "lambda_expression"@ {
            java_calls_names(src, c)
        } else {
            Seq::empty()
        }
    }
}

/// Call relations for method invocations (by `object.name` when there is an
/// object) and object creations under a node, not looking into nested
/// classes and lambdas.
fn extract_calls(ctx: &VisitorContext, node: &SyntaxNode, caller_id: SymbolId, out: &mut ParseOutput)
    requires
        visit_pre(*old(out), *ctx, *node, caller_id),
    ensures
        visit_post(*old(out), *final(out), *ctx),
        new_from(old(out).symbols@, final(out).symbols@, *node),
        final(out).symbols@ == old(out).symbols@,
        appended_to_phantoms(
            old(out).relations@,
            final(out).relations@,
            caller_id,
            RelationKind::Calls,
            java_calls_names(ctx.source.spec_bytes(), *node),
        ),
    decreases *node,
{
    let ghost len = ctx.source.spec_bytes().len();
    proof {
        lemma_append_none(old(out).relations@, caller_id, RelationKind::Calls);
    }
    let mut i: usize = 0;
    while i < node.children.len()
        invariant
            i <= node.children@.len(),
            len == ctx.source.spec_bytes().len(),
            spans_ok(*node, len),
            ctx_ok(*out, *ctx),
            new_from(old(out).symbols@, out.symbols@, *node),
            rel_extends(old(out).relations@, out.relations@),
            out.symbols@ == old(out).symbols@,
            owner_ok(out.symbols@, caller_id),
            appended_to_phantoms(
                old(out).relations@,
                out.relations@,
                caller_id,
                RelationKind::Calls,
                java_calls_names_upto(ctx.source.spec_bytes(), *node, i as int),
            ),
        decreases node.children@.len() - i,
    {
        let child = &node.children[i];
        proof {
            lemma_child_spans_ok(*node, len, i as int);
        }
        let ghost mid = out.relations@;
        let ghost pre = java_calls_names_upto(ctx.source.spec_bytes(), *node, i as int);
        let k = child.kind.as_str();
        if str_eq(k, "method_invocation") {
            if let Some(callee) = field_text(ctx, child, "name") {
                if callee.unicode_len() > 0 {
                    let full_name = match field_text(ctx, child, "object") {
                        Some(obj) => {
                            let mut f = str_to_string(obj);
                            string_push(&mut f, '.');
                            string_push_str(&mut f, callee);
                            assert(f@ =~= obj@ + seq!['.'] + callee@);
                            f
                        },
                        None => str_to_string(callee),
                    };
                    let target_id = phantom_of(full_name.as_str());
                    out.add_relation(ctx, caller_id, target_id, RelationKind::Calls, child.start_row);
                    proof {
                        lemma_append_phantom(old(out).relations@, mid, out.relations@, caller_id, RelationKind::Calls, pre, full_name@);
                        assert(pre.push(full_name@) =~= pre + seq![full_name@]);
                    }
                }
            }
        } else if str_eq(k, "object_creation_expression") {
            if let Some(t) = field_text(ctx, child, "type") {
                if t.unicode_len() > 0 {
                    let target_id = phantom_of(t);
                    out.add_relation(ctx, caller_id, target_id, RelationKind::Calls, child.start_row);
                    proof {
                        lemma_append_phantom(old(out).relations@, mid, out.relations@, caller_id, RelationKind::Calls, pre, t@);
                        assert(pre.push(t@) =~= pre + seq![t@]);
                    }
                }
            }
        }
        let ghost here = java_calls_here(ctx.source.spec_bytes(), *child);
        proof {
            if here.len() == 0 {
                assert(pre + here =~= pre);
            }
        }
        assert(appended_to_phantoms(old(out).relations@, out.relations@, caller_id, RelationKind::Calls, pre + here));
        let ghost mid2 = out.relations@;
        if !str_eq(k, "class_declaration") && !str_eq(k, "lambda_expression") {
            extract_calls(ctx, child, caller_id, out);
            proof {
                lemma_append_all(
                    old(out).relations@,
                    mid2,
                    out.relations@,
                    caller_id,
                    RelationKind::Calls,
                    pre + here,
                    java_calls_names(ctx.source.spec_bytes(), *child),
                );
            }
        } else {
            assert(pre + here + Seq::<Seq<char>>::empty() =~= pre + here);
        }
        i = i + 1;
    }
}

} // verus!
