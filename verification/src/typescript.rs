//! Symbols and relations of a TypeScript or JavaScript source file: the
//! module, classes and their methods, functions, interfaces, type aliases,
//! enums, variables, imports and re-exports, heritage and calls.
use vstd::prelude::*;
use vstd::string::StringSliceAdditionalSpecFns;
use crate::chunker::SyntaxNode;
use crate::qualified_name::{join_dotted, str_views};
use crate::resolver::phantom_id;
use crate::comments::{opt_string, spec_block_doc};
use crate::comments::{comment_lines, join_newlines};
use crate::extract::{
    new_from, in_subtree, lemma_new_from_child, lemma_new_from_trans,
    rel_extends,
    all_spans_ok, child_by_field, ctx_ok, extend_scope, extends, has_symbol_id, lemma_extends_owner, owner_ok, lemma_all_children_spans_ok,
    lemma_child_spans_ok, node_text, phantom_of, spans_ok, visit_post, visit_pre, ParseOutput,
    VisitorContext, opt_text, spec_field_text, field_or, field_after, pushed_relation, appended_to_phantoms, lemma_append_phantom, spec_first_kind_from, spec_node_text, spec_child_by_field, added_named, lemma_append_all, lemma_append_none, has_symbol, lemma_added_has, lemma_has_extends, has_relation, has_relations_to, has_tagged, lemma_appended_has, lemma_relations_to_extends, lemma_relation_extends, lemma_tagged_has, lemma_tagged_extends, symbol_is, appended_tagged, tagged, lemma_tagged_from_phantoms, lemma_tagged_none, lemma_tagged_all};
use crate::fusion::str_starts_with;
use crate::language::{str_eq, Language};
use crate::naming::{qualified_name, spec_typescript_module_name, typescript_module_name};
use crate::relation::{CodeRelation, RelationKind};
use crate::symbol::{CodeSymbol, SymbolId, SymbolKind};
use crate::text::{chars_of, string_from_chars, string_push, string_push_str, str_to_string};

verus! {

/// What a visit of the node at `idx` among its siblings may assume.
pub open spec fn sib_pre(out: ParseOutput, ctx: VisitorContext, sibs: Seq<SyntaxNode>, idx: int, owner: SymbolId) -> bool {
    &&& 0 <= idx < sibs.len()
    &&& all_spans_ok(sibs, ctx.source.spec_bytes().len())
    &&& ctx_ok(out, ctx)
    &&& owner_ok(out.symbols@, owner)
}

/// A quote of a module specifier.
pub open spec fn is_quote(c: char) -> bool {
    c == '\'' || c == '"'
}

pub open spec fn quote_start(s: Seq<char>, i: int) -> int
    decreases s.len() - i,
{
    if i < 0 || i >= s.len() || !is_quote(s[i]) {
        i
    } else {
        quote_start(s, i + 1)
    }
}

pub open spec fn quote_end(s: Seq<char>, j: int, lo: int) -> int
    decreases j - lo,
{
    if j <= lo || !is_quote(s[j - 1]) {
        j
    } else {
        quote_end(s, j - 1, lo)
    }
}

/// A module specifier without the quotes around it (`str::trim_matches`).
pub open spec fn spec_unquote(s: Seq<char>) -> Seq<char> {
    let a = quote_start(s, 0);
    s.subrange(a, quote_end(s, s.len() as int, a))
}

proof fn lemma_quote_bounds(s: Seq<char>, i: int, j: int, lo: int)
    requires
        0 <= i <= s.len(),
        0 <= lo <= j <= s.len(),
    ensures
        i <= quote_start(s, i) <= s.len(),
        lo <= quote_end(s, j, lo) <= j,
    decreases s.len() - i + j - lo,
{
    if i < s.len() && is_quote(s[i]) {
        lemma_quote_bounds(s, i + 1, j, lo);
    } else if j > lo && is_quote(s[j - 1]) {
        lemma_quote_bounds(s, i, j - 1, lo);
    }
}

/// The text without the quote characters at either end.
pub fn unquote(text: &str) -> (r: String)
    ensures
        r@ == spec_unquote(text@),
{
    let cs = chars_of(text);
    let n = cs.len();
    proof {
        lemma_quote_bounds(cs@, 0, n as int, 0);
    }
    let mut a: usize = 0;
    while a < n && (cs[a] == '\'' || cs[a] == '"')
        invariant
            n == cs@.len(),
            a <= n,
            quote_start(cs@, a as int) == quote_start(cs@, 0),
        decreases n - a,
    {
        a = a + 1;
    }
    proof {
        lemma_quote_bounds(cs@, 0, n as int, a as int);
    }
    let mut b: usize = n;
    while b > a && (cs[b - 1] == '\'' || cs[b - 1] == '"')
        invariant
            n == cs@.len(),
            a <= b <= n,
            quote_end(cs@, b as int, a as int) == quote_end(cs@, n as int, a as int),
        decreases b - a,
    {
        b = b - 1;
    }
    let mut v: Vec<char> = Vec::new();
    let mut k: usize = a;
    while k < b
        invariant
            a <= k <= b <= n,
            n == cs@.len(),
            v@ == cs@.subrange(a as int, k as int),
        decreases b - k,
    {
        v.push(cs[k]);
        assert(cs@.subrange(a as int, k + 1) =~= cs@.subrange(a as int, k as int).push(cs@[k as int]));
        k = k + 1;
    }
    string_from_chars(&v)
}

/// The JSDoc of the node at `idx`: the comment right before it, when it is
/// a `/** ... */` comment with some text.
pub open spec fn spec_jsdoc(src: Seq<u8>, sibs: Seq<SyntaxNode>, idx: int) -> Option<Seq<char>> {
    if idx <= 0 || sibs[idx - 1].kind@ != "comment"@ {
        None
    } else {
        spec_block_doc(spec_node_text(src, sibs[idx - 1]))
    }
}

/// The JSDoc comment (`/** ... */`) right before the node at `idx`, its
/// lines cleaned and joined.
fn extract_jsdoc(ctx: &VisitorContext, sibs: &Vec<SyntaxNode>, idx: usize) -> (r: Option<String>)
    requires
        idx < sibs@.len(),
        all_spans_ok(sibs@, ctx.source.spec_bytes().len()),
    ensures
        opt_string(r) == spec_jsdoc(ctx.source.spec_bytes(), sibs@, idx as int),
{
    if idx == 0 {
        return None;
    }
    let prev = &sibs[idx - 1];
    if !str_eq(prev.kind.as_str(), "comment") {
        return None;
    }
    let text = node_text(ctx, prev);
    if !str_starts_with(text, "/**") {
        return None;
    }
    let lines = comment_lines(text, "/**");
    if lines.len() == 0 {
        return None;
    }
    Some(join_newlines(&lines))
}

/// The text of the field `name` of the node, if it has one.
fn field_text<'a>(ctx: &VisitorContext<'a>, node: &SyntaxNode, name: &str) -> (r: Option<&'a str>)
    requires
        spans_ok(*node, ctx.source.spec_bytes().len()),
    ensures
        opt_text(r) == spec_field_text(ctx.source.spec_bytes(), *node, name@),
{
    match child_by_field(node, name) {
        Some(i) => {
            proof {
                lemma_child_spans_ok(*node, ctx.source.spec_bytes().len(), i as int);
            }
            Some(node_text(ctx, &node.children[i]))
        },
        None => None,
    }
}

/// `function name(params): ret` (or, for a method, without `function `).
fn build_callable_signature(ctx: &VisitorContext, node: &SyntaxNode, name: &str, keyword: bool) -> (r: String)
    requires
        spans_ok(*node, ctx.source.spec_bytes().len()),
    ensures
        r@ == (if keyword { "function "@ } else { Seq::<char>::empty() }) + name@ + field_or(
            ctx.source.spec_bytes(),
            *node,
            "parameters"@,
            "()"@,
        ) + field_after(ctx.source.spec_bytes(), *node, "return_type"@, ": "@),
{
    let mut sig = if keyword {
        str_to_string("function ")
    } else {
        String::new()
    };
    string_push_str(&mut sig, name);
    match field_text(ctx, node, "parameters") {
        Some(p) => string_push_str(&mut sig, p),
        None => string_push_str(&mut sig, "()"),
    }
    if let Some(rt) = field_text(ctx, node, "return_type") {
        string_push_str(&mut sig, ": ");
        string_push_str(&mut sig, rt);
    }
    sig
}

/// `class Name` followed by its heritage clause, if any.
fn build_class_signature(ctx: &VisitorContext, node: &SyntaxNode, name: &str) -> (r: String)
    requires
        spans_ok(*node, ctx.source.spec_bytes().len()),
    ensures
        r@ == "class "@ + name@ + match spec_first_kind_from(node.children@, "class_heritage"@, 0) {
            Some(i) => seq![' '] + spec_node_text(ctx.source.spec_bytes(), node.children@[i]),
            None => Seq::<char>::empty(),
        },
{
    let mut sig = str_to_string("class ");
    string_push_str(&mut sig, name);
    let mut i: usize = 0;
    while i < node.children.len()
        invariant
            i <= node.children@.len(),
            spans_ok(*node, ctx.source.spec_bytes().len()),
            sig@ == "class "@ + name@,
            spec_first_kind_from(node.children@, "class_heritage"@, 0) == spec_first_kind_from(
                node.children@,
                "class_heritage"@,
                i as int,
            ),
        decreases node.children@.len() - i,
    {
        if str_eq(node.children[i].kind.as_str(), "class_heritage") {
            proof {
                lemma_child_spans_ok(*node, ctx.source.spec_bytes().len(), i as int);
            }
            string_push(&mut sig, ' ');
            string_push_str(&mut sig, node_text(ctx, &node.children[i]));
            return sig;
        }
        i = i + 1;
    }
    sig
}

/// `keyword name`.
fn keyword_signature(keyword: &str, name: &str) -> (r: String)
    ensures
        r@ == keyword@ + seq![' '] + name@,
{
    let mut sig = str_to_string(keyword);
    string_push(&mut sig, ' ');
    string_push_str(&mut sig, name);
    sig
}

/// Extract the symbols and relations of a TypeScript or JavaScript file
/// from its syntax tree. The first symbol is the module, spanning the whole
/// tree.
pub fn extract(ctx: &VisitorContext, root: &SyntaxNode) -> (out: ParseOutput)
    requires
        spans_ok(*root, ctx.source.spec_bytes().len()),
    ensures
        ctx_ok(out, *ctx),
        new_from(Seq::empty(), out.symbols@, *root),
        out.symbols@.len() >= 1,
        out.symbols@[0].name@ == spec_typescript_module_name(ctx.file_path@),
        out.symbols@[0].qualified_name@ == spec_typescript_module_name(ctx.file_path@),
        out.symbols@[0].kind == SymbolKind::Module,
        out.symbols@[0].byte_range.start == root.start_byte,
        out.symbols@[0].byte_range.end == root.end_byte,
        forall|i: int|
            0 <= i < root.children@.len() ==> ts_child_held(
                ctx.source.spec_bytes(),
                out.symbols@,
                out.relations@,
                #[trigger] root.children@[i],
                seq![spec_typescript_module_name(ctx.file_path@)],
                false,
                out.symbols@[0].id,
            ),
{
    let mut out = ParseOutput::new();
    let module_name = typescript_module_name(ctx.file_path);
    let module_qname = module_name.clone();
    let module_id = out.add_symbol(ctx, root, module_name.as_str(), module_qname, SymbolKind::Module, None, None);
    let ghost first = out.symbols@[0];
    let scope = vec![module_name.as_str()];
    assert(str_views(scope@) =~= seq![spec_typescript_module_name(ctx.file_path@)]);
    assert(module_id == first.id);
    let ghost added = out.symbols@;
    assert(new_from(Seq::empty(), added, *root));
    extract_children(ctx, root, scope.as_slice(), module_id, false, &mut out);
    proof {
        lemma_new_from_trans(Seq::empty(), added, out.symbols@, *root);
    }
    assert(out.symbols@[0] == first);
    out
}

/// The statement kinds a TypeScript visitor tells apart are distinct.
pub proof fn lemma_ts_kinds_distinct()
    ensures
        "class_declaration"@ != "abstract_class_declaration"@,
        "class_declaration"@ != "function_declaration"@,
        "class_declaration"@ != "method_definition"@,
        "class_declaration"@ != "interface_declaration"@,
        "class_declaration"@ != "type_alias_declaration"@,
        "class_declaration"@ != "enum_declaration"@,
        "class_declaration"@ != "lexical_declaration"@,
        "class_declaration"@ != "variable_declaration"@,
        "class_declaration"@ != "export_statement"@,
        "class_declaration"@ != "import_statement"@,
        "abstract_class_declaration"@ != "function_declaration"@,
        "abstract_class_declaration"@ != "method_definition"@,
        "abstract_class_declaration"@ != "interface_declaration"@,
        "abstract_class_declaration"@ != "type_alias_declaration"@,
        "abstract_class_declaration"@ != "enum_declaration"@,
        "abstract_class_declaration"@ != "lexical_declaration"@,
        "abstract_class_declaration"@ != "variable_declaration"@,
        "abstract_class_declaration"@ != "export_statement"@,
        "abstract_class_declaration"@ != "import_statement"@,
        "function_declaration"@ != "method_definition"@,
        "function_declaration"@ != "interface_declaration"@,
        "function_declaration"@ != "type_alias_declaration"@,
        "function_declaration"@ != "enum_declaration"@,
        "function_declaration"@ != "lexical_declaration"@,
        "function_declaration"@ != "variable_declaration"@,
        "function_declaration"@ != "export_statement"@,
        "function_declaration"@ != "import_statement"@,
        "method_definition"@ != "interface_declaration"@,
        "method_definition"@ != "type_alias_declaration"@,
        "method_definition"@ != "enum_declaration"@,
        "method_definition"@ != "lexical_declaration"@,
        "method_definition"@ != "variable_declaration"@,
        "method_definition"@ != "export_statement"@,
        "method_definition"@ != "import_statement"@,
        "interface_declaration"@ != "type_alias_declaration"@,
        "interface_declaration"@ != "enum_declaration"@,
        "interface_declaration"@ != "lexical_declaration"@,
        "interface_declaration"@ != "variable_declaration"@,
        "interface_declaration"@ != "export_statement"@,
        "interface_declaration"@ != "import_statement"@,
        "type_alias_declaration"@ != "enum_declaration"@,
        "type_alias_declaration"@ != "lexical_declaration"@,
        "type_alias_declaration"@ != "variable_declaration"@,
        "type_alias_declaration"@ != "export_statement"@,
        "type_alias_declaration"@ != "import_statement"@,
        "enum_declaration"@ != "lexical_declaration"@,
        "enum_declaration"@ != "variable_declaration"@,
        "enum_declaration"@ != "export_statement"@,
        "enum_declaration"@ != "import_statement"@,
        "lexical_declaration"@ != "variable_declaration"@,
        "lexical_declaration"@ != "export_statement"@,
        "lexical_declaration"@ != "import_statement"@,
        "variable_declaration"@ != "export_statement"@,
        "variable_declaration"@ != "import_statement"@,
        "export_statement"@ != "import_statement"@,
{
    reveal_strlit("class_declaration");
    reveal_strlit("abstract_class_declaration");
    reveal_strlit("function_declaration");
    reveal_strlit("method_definition");
    reveal_strlit("interface_declaration");
    reveal_strlit("type_alias_declaration");
    reveal_strlit("enum_declaration");
    reveal_strlit("lexical_declaration");
    reveal_strlit("variable_declaration");
    reveal_strlit("export_statement");
    reveal_strlit("import_statement");
    assert("class_declaration"@.len() != "abstract_class_declaration"@.len());
    assert("class_declaration"@.len() != "function_declaration"@.len());
    assert("class_declaration"@[0] != "method_definition"@[0]);
    assert("class_declaration"@.len() != "interface_declaration"@.len());
    assert("class_declaration"@.len() != "type_alias_declaration"@.len());
    assert("class_declaration"@.len() != "enum_declaration"@.len());
    assert("class_declaration"@.len() != "lexical_declaration"@.len());
    assert("class_declaration"@.len() != "variable_declaration"@.len());
    assert("class_declaration"@.len() != "export_statement"@.len());
    assert("class_declaration"@.len() != "import_statement"@.len());
    assert("abstract_class_declaration"@.len() != "function_declaration"@.len());
    assert("abstract_class_declaration"@.len() != "method_definition"@.len());
    assert("abstract_class_declaration"@.len() != "interface_declaration"@.len());
    assert("abstract_class_declaration"@.len() != "type_alias_declaration"@.len());
    assert("abstract_class_declaration"@.len() != "enum_declaration"@.len());
    assert("abstract_class_declaration"@.len() != "lexical_declaration"@.len());
    assert("abstract_class_declaration"@.len() != "variable_declaration"@.len());
    assert("abstract_class_declaration"@.len() != "export_statement"@.len());
    assert("abstract_class_declaration"@.len() != "import_statement"@.len());
    assert("function_declaration"@.len() != "method_definition"@.len());
    assert("function_declaration"@.len() != "interface_declaration"@.len());
    assert("function_declaration"@.len() != "type_alias_declaration"@.len());
    assert("function_declaration"@.len() != "enum_declaration"@.len());
    assert("function_declaration"@.len() != "lexical_declaration"@.len());
    assert("function_declaration"@[0] != "variable_declaration"@[0]);
    assert("function_declaration"@.len() != "export_statement"@.len());
    assert("function_declaration"@.len() != "import_statement"@.len());
    assert("method_definition"@.len() != "interface_declaration"@.len());
    assert("method_definition"@.len() != "type_alias_declaration"@.len());
    assert("method_definition"@.len() != "enum_declaration"@.len());
    assert("method_definition"@.len() != "lexical_declaration"@.len());
    assert("method_definition"@.len() != "variable_declaration"@.len());
    assert("method_definition"@.len() != "export_statement"@.len());
    assert("method_definition"@.len() != "import_statement"@.len());
    assert("interface_declaration"@.len() != "type_alias_declaration"@.len());
    assert("interface_declaration"@.len() != "enum_declaration"@.len());
    assert("interface_declaration"@.len() != "lexical_declaration"@.len());
    assert("interface_declaration"@.len() != "variable_declaration"@.len());
    assert("interface_declaration"@.len() != "export_statement"@.len());
    assert("interface_declaration"@.len() != "import_statement"@.len());
    assert("type_alias_declaration"@.len() != "enum_declaration"@.len());
    assert("type_alias_declaration"@.len() != "lexical_declaration"@.len());
    assert("type_alias_declaration"@.len() != "variable_declaration"@.len());
    assert("type_alias_declaration"@.len() != "export_statement"@.len());
    assert("type_alias_declaration"@.len() != "import_statement"@.len());
    assert("enum_declaration"@.len() != "lexical_declaration"@.len());
    assert("enum_declaration"@.len() != "variable_declaration"@.len());
    assert("enum_declaration"@[1] != "export_statement"@[1]);
    assert("enum_declaration"@[0] != "import_statement"@[0]);
    assert("lexical_declaration"@.len() != "variable_declaration"@.len());
    assert("lexical_declaration"@.len() != "export_statement"@.len());
    assert("lexical_declaration"@.len() != "import_statement"@.len());
    assert("variable_declaration"@.len() != "export_statement"@.len());
    assert("variable_declaration"@.len() != "import_statement"@.len());
    assert("export_statement"@[0] != "import_statement"@[0]);
}

/// The symbol a declaration makes for itself, when it has a name (a
/// non-empty one for functions and methods): the name and its kind.
pub open spec fn ts_decl_symbol(src: Seq<u8>, c: SyntaxNode, in_class: bool) -> Option<(Seq<char>, SymbolKind)> {
    let k = c.kind@;
    match spec_field_text(src, c, "name"@) {
        None => None,
        Some(n) => if k == "class_declaration"@ || k == "abstract_class_declaration"@ {
            Some((n, SymbolKind::Class))
        } else if k == "function_declaration"@ {
            if n.len() > 0 { Some((n, if in_class { SymbolKind::Method } else { SymbolKind::Function })) } else { None }
        } else if k == "method_definition"@ {
            if n.len() > 0 { Some((n, SymbolKind::Method)) } else { None }
        } else if k == "interface_declaration"@ {
            Some((n, SymbolKind::Interface))
        } else if k == "type_alias_declaration"@ {
            Some((n, SymbolKind::TypeAlias))
        } else if k == "enum_declaration"@ {
            Some((n, SymbolKind::Enum))
        } else {
            None
        },
    }
}

/// The symbol a variable declarator with a non-empty name makes: a
/// function when its value is an arrow function or function expression,
/// else a constant or a variable.
pub open spec fn ts_var_symbol(src: Seq<u8>, c: SyntaxNode, is_const: bool) -> Option<(Seq<char>, SymbolKind)> {
    match spec_field_text(src, c, "name"@) {
        Some(n) => if n.len() > 0 {
            Some((n, if (spec_child_by_field(c, "value"@) matches Some(v) && (c.children@[v].kind@ == "arrow_function"@
                || c.children@[v].kind@ == "function"@)) {
                SymbolKind::Function
            } else if is_const {
                SymbolKind::Constant
            } else {
                SymbolKind::Variable
            }))
        } else {
            None
        },
        None => None,
    }
}

/// `syms` holds a symbol for each variable declarator of `node`, and
/// `rels` a call from it of each callee in its value.
pub open spec fn ts_declarators_held(
    src: Seq<u8>,
    syms: Seq<CodeSymbol>,
    rels: Seq<CodeRelation>,
    node: SyntaxNode,
    scope: Seq<Seq<char>>,
    is_const: bool,
) -> bool {
    forall|j: int|
        0 <= j < node.children@.len() && (#[trigger] node.children@[j]).kind@ == "variable_declarator"@ ==> ts_declarator_held(
            src,
            syms,
            rels,
            node.children@[j],
            scope,
            is_const,
        )
}

/// `syms` holds the symbol a variable declarator makes, if any, and `rels`
/// a call from it of each callee in its value.
pub open spec fn ts_declarator_held(
    src: Seq<u8>,
    syms: Seq<CodeSymbol>,
    rels: Seq<CodeRelation>,
    c: SyntaxNode,
    scope: Seq<Seq<char>>,
    is_const: bool,
) -> bool {
    match ts_var_symbol(src, c, is_const) {
        Some(t) => exists|k: int|
            0 <= k < syms.len() && symbol_is(#[trigger] syms[k], t.0, join_dotted(scope.push(t.0)), t.1, c) && (spec_child_by_field(
                c,
                "value"@,
            ) matches Some(v) ==> (0 <= v < c.children@.len() ==> has_relations_to(
                rels,
                syms[k].id,
                RelationKind::Calls,
                ts_calls_names(src, c.children@[v]),
            ))),
        None => true,
    }
}

/// The import a node with a `source` field makes from `owner`: of the
/// module it names without its quotes, when that is not empty.
pub open spec fn ts_module_ref_held(src: Seq<u8>, rels: Seq<CodeRelation>, node: SyntaxNode, owner: SymbolId) -> bool {
    spec_field_text(src, node, "source"@) matches Some(t) ==> (spec_unquote(t).len() > 0 ==> has_relation(
        rels,
        owner,
        SymbolId(phantom_id(spec_unquote(t))),
        RelationKind::Imports,
    ))
}

/// What comes with the symbol `id` of a declaration, scoped in `inner`: a
/// class's heritage relations and members (owned by it); an interface's
/// heritage relations; a function's calls and nested declarations; a
/// method's calls.
pub open spec fn ts_decl_body(
    src: Seq<u8>,
    syms: Seq<CodeSymbol>,
    rels: Seq<CodeRelation>,
    c: SyntaxNode,
    inner: Seq<Seq<char>>,
    id: SymbolId,
) -> bool
    decreases c, 0int,
{
    let body = spec_child_by_field(c, "body"@);
    if c.kind@ == "class_declaration"@ || c.kind@ == "abstract_class_declaration"@ {
        &&& has_tagged(rels, id, ts_heritage_items(src, c.children@, c.children@.len() as int))
        &&& (body matches Some(b) ==> (0 <= b < c.children@.len() ==> ts_body_deep(src, syms, rels, c.children@[b], inner, id)))
    } else if c.kind@ == "interface_declaration"@ {
        has_tagged(rels, id, ts_heritage_items(src, c.children@, c.children@.len() as int))
    } else if c.kind@ == "function_declaration"@ {
        body matches Some(b) ==> (0 <= b < c.children@.len() ==> {
            &&& has_relations_to(rels, id, RelationKind::Calls, ts_calls_names(src, c.children@[b]))
            &&& ts_nested_held(src, syms, rels, c.children@[b], inner)
        })
    } else if c.kind@ == "method_definition"@ {
        body matches Some(b) ==> (0 <= b < c.children@.len() ==> has_relations_to(
            rels,
            id,
            RelationKind::Calls,
            ts_calls_names(src, c.children@[b]),
        ))
    } else {
        true
    }
}

/// `syms` holds the symbol a declaration makes, if any, with what comes
/// with it.
pub open spec fn ts_decl_deep(
    src: Seq<u8>,
    syms: Seq<CodeSymbol>,
    rels: Seq<CodeRelation>,
    c: SyntaxNode,
    scope: Seq<Seq<char>>,
    in_class: bool,
) -> bool
    decreases c, 1int,
{
    match ts_decl_symbol(src, c, in_class) {
        Some(t) => exists|k: int|
            0 <= k < syms.len() && symbol_is(#[trigger] syms[k], t.0, join_dotted(scope.push(t.0)), t.1, c) && ts_decl_body(
                src,
                syms,
                rels,
                c,
                scope.push(t.0),
                syms[k].id,
            ),
        None => true,
    }
}

/// `syms` and `rels` hold what a declaration that may stand in an export
/// makes: its own symbol with what comes with it, or one per variable
/// declarator of a lexical declaration (constants when it starts with
/// `const`).
pub open spec fn ts_item_held(
    src: Seq<u8>,
    syms: Seq<CodeSymbol>,
    rels: Seq<CodeRelation>,
    c: SyntaxNode,
    scope: Seq<Seq<char>>,
    in_class: bool,
) -> bool
    decreases c, 2int,
{
    let k = c.kind@;
    if k == "lexical_declaration"@ {
        ts_declarators_held(src, syms, rels, c, scope, "const"@.is_prefix_of(spec_node_text(src, c)))
    } else if k == "method_definition"@ {
        true
    } else {
        ts_decl_deep(src, syms, rels, c, scope, in_class)
    }
}

/// What an export declares: a re-export imports its module from `owner`;
/// otherwise what each declaration in it makes.
pub open spec fn ts_export_held(
    src: Seq<u8>,
    syms: Seq<CodeSymbol>,
    rels: Seq<CodeRelation>,
    node: SyntaxNode,
    scope: Seq<Seq<char>>,
    in_class: bool,
    owner: SymbolId,
) -> bool
    decreases node, 2int,
{
    &&& ts_module_ref_held(src, rels, node, owner)
    &&& (spec_field_text(src, node, "source"@) is None ==> forall|j: int|
        0 <= j < node.children@.len() ==> ts_item_held(src, syms, rels, #[trigger] node.children@[j], scope, in_class))
}

/// What a statement of a program or class body declares, with `owner` as
/// the importer.
pub open spec fn ts_child_held(
    src: Seq<u8>,
    syms: Seq<CodeSymbol>,
    rels: Seq<CodeRelation>,
    c: SyntaxNode,
    scope: Seq<Seq<char>>,
    in_class: bool,
    owner: SymbolId,
) -> bool
    decreases c, 3int,
{
    let k = c.kind@;
    if k == "method_definition"@ {
        ts_decl_deep(src, syms, rels, c, scope, in_class)
    } else if k == "variable_declaration"@ {
        ts_declarators_held(src, syms, rels, c, scope, false)
    } else if k == "export_statement"@ {
        ts_export_held(src, syms, rels, c, scope, in_class, owner)
    } else if k == "import_statement"@ {
        ts_module_ref_held(src, rels, c, owner)
    } else {
        ts_item_held(src, syms, rels, c, scope, in_class)
    }
}

/// What each member of a class body declares, with the class as owner.
pub open spec fn ts_body_deep(
    src: Seq<u8>,
    syms: Seq<CodeSymbol>,
    rels: Seq<CodeRelation>,
    body: SyntaxNode,
    scope: Seq<Seq<char>>,
    owner: SymbolId,
) -> bool
    decreases body, 4int,
{
    forall|j: int| 0 <= j < body.children@.len() ==> ts_child_held(src, syms, rels, #[trigger] body.children@[j], scope, true, owner)
}

/// What comes with a declaration's symbol stays held as the lists grow.
pub proof fn lemma_ts_decl_body_extends(
    src: Seq<u8>,
    a: Seq<CodeSymbol>,
    b: Seq<CodeSymbol>,
    ra: Seq<CodeRelation>,
    rb: Seq<CodeRelation>,
    c: SyntaxNode,
    inner: Seq<Seq<char>>,
    id: SymbolId,
)
    requires
        extends(a, b),
        rel_extends(ra, rb),
        ts_decl_body(src, a, ra, c, inner, id),
    ensures
        ts_decl_body(src, b, rb, c, inner, id),
    decreases c, 0int,
{
    lemma_ts_kinds_distinct();
    let body = spec_child_by_field(c, "body"@);
    if c.kind@ == "class_declaration"@ || c.kind@ == "abstract_class_declaration"@ || c.kind@ == "interface_declaration"@ {
        lemma_tagged_extends(ra, rb, id, ts_heritage_items(src, c.children@, c.children@.len() as int));
        if c.kind@ != "interface_declaration"@ {
            match body {
                Some(x) => if 0 <= x < c.children@.len() {
                    lemma_ts_body_deep_extends(src, a, b, ra, rb, c.children@[x], inner, id);
                },
                None => {},
            }
        }
    } else if c.kind@ == "function_declaration"@ || c.kind@ == "method_definition"@ {
        match body {
            Some(x) => if 0 <= x < c.children@.len() {
                lemma_relations_to_extends(ra, rb, id, RelationKind::Calls, ts_calls_names(src, c.children@[x]));
                if c.kind@ == "function_declaration"@ {
                    lemma_ts_nested_extends(src, a, b, ra, rb, c.children@[x], inner);
                }
            },
            None => {},
        }
    }
}

/// What a declaration declares stays held as the lists grow.
pub proof fn lemma_ts_decl_deep_extends(
    src: Seq<u8>,
    a: Seq<CodeSymbol>,
    b: Seq<CodeSymbol>,
    ra: Seq<CodeRelation>,
    rb: Seq<CodeRelation>,
    c: SyntaxNode,
    scope: Seq<Seq<char>>,
    in_class: bool,
)
    requires
        extends(a, b),
        rel_extends(ra, rb),
        ts_decl_deep(src, a, ra, c, scope, in_class),
    ensures
        ts_decl_deep(src, b, rb, c, scope, in_class),
    decreases c, 1int,
{
    match ts_decl_symbol(src, c, in_class) {
        Some(t) => {
            let k = choose|k: int|
                0 <= k < a.len() && symbol_is(#[trigger] a[k], t.0, join_dotted(scope.push(t.0)), t.1, c) && ts_decl_body(
                    src,
                    a,
                    ra,
                    c,
                    scope.push(t.0),
                    a[k].id,
                );
            assert(b[k] == a[k]);
            lemma_ts_decl_body_extends(src, a, b, ra, rb, c, scope.push(t.0), a[k].id);
        },
        None => {},
    }
}

/// What a class body declares stays held as the lists grow.
pub proof fn lemma_ts_body_deep_extends(
    src: Seq<u8>,
    a: Seq<CodeSymbol>,
    b: Seq<CodeSymbol>,
    ra: Seq<CodeRelation>,
    rb: Seq<CodeRelation>,
    body: SyntaxNode,
    scope: Seq<Seq<char>>,
    owner: SymbolId,
)
    requires
        extends(a, b),
        rel_extends(ra, rb),
        ts_body_deep(src, a, ra, body, scope, owner),
    ensures
        ts_body_deep(src, b, rb, body, scope, owner),
    decreases body, 4int,
{
    assert forall|j: int| 0 <= j < body.children@.len() implies ts_child_held(src, b, rb, #[trigger] body.children@[j], scope, true, owner) by {
        lemma_ts_child_extends(src, a, b, ra, rb, body.children@[j], scope, true, owner);
    }
}

/// A declarator's symbol and calls stay held as the lists grow.
pub proof fn lemma_ts_declarator_extends(
    src: Seq<u8>,
    a: Seq<CodeSymbol>,
    b: Seq<CodeSymbol>,
    ra: Seq<CodeRelation>,
    rb: Seq<CodeRelation>,
    c: SyntaxNode,
    scope: Seq<Seq<char>>,
    is_const: bool,
)
    requires
        extends(a, b),
        rel_extends(ra, rb),
        ts_declarator_held(src, a, ra, c, scope, is_const),
    ensures
        ts_declarator_held(src, b, rb, c, scope, is_const),
{
    match ts_var_symbol(src, c, is_const) {
        Some(t) => {
            let k = choose|k: int|
                0 <= k < a.len() && symbol_is(#[trigger] a[k], t.0, join_dotted(scope.push(t.0)), t.1, c) && (spec_child_by_field(
                    c,
                    "value"@,
                ) matches Some(v) ==> (0 <= v < c.children@.len() ==> has_relations_to(
                    ra,
                    a[k].id,
                    RelationKind::Calls,
                    ts_calls_names(src, c.children@[v]),
                )));
            assert(b[k] == a[k]);
            match spec_child_by_field(c, "value"@) {
                Some(v) => if 0 <= v < c.children@.len() {
                    lemma_relations_to_extends(ra, rb, a[k].id, RelationKind::Calls, ts_calls_names(src, c.children@[v]));
                },
                None => {},
            }
        },
        None => {},
    }
}

/// The declarators' symbols and calls stay held as the lists grow.
pub proof fn lemma_ts_declarators_extends(
    src: Seq<u8>,
    a: Seq<CodeSymbol>,
    b: Seq<CodeSymbol>,
    ra: Seq<CodeRelation>,
    rb: Seq<CodeRelation>,
    node: SyntaxNode,
    scope: Seq<Seq<char>>,
    is_const: bool,
)
    requires
        extends(a, b),
        rel_extends(ra, rb),
        ts_declarators_held(src, a, ra, node, scope, is_const),
    ensures
        ts_declarators_held(src, b, rb, node, scope, is_const),
{
    assert forall|j: int|
        0 <= j < node.children@.len() && (#[trigger] node.children@[j]).kind@ == "variable_declarator"@ implies ts_declarator_held(
            src,
            b,
            rb,
            node.children@[j],
            scope,
            is_const,
        ) by {
        lemma_ts_declarator_extends(src, a, b, ra, rb, node.children@[j], scope, is_const);
    }
}

/// A module import stays held as the list grows.
pub proof fn lemma_ts_module_ref_extends(src: Seq<u8>, ra: Seq<CodeRelation>, rb: Seq<CodeRelation>, node: SyntaxNode, owner: SymbolId)
    requires
        rel_extends(ra, rb),
        ts_module_ref_held(src, ra, node, owner),
    ensures
        ts_module_ref_held(src, rb, node, owner),
{
    match spec_field_text(src, node, "source"@) {
        Some(t) => if spec_unquote(t).len() > 0 {
            lemma_relation_extends(ra, rb, owner, SymbolId(phantom_id(spec_unquote(t))), RelationKind::Imports);
        },
        None => {},
    }
}

/// What a declaration in an export makes stays held as the lists grow.
pub proof fn lemma_ts_item_extends(
    src: Seq<u8>,
    a: Seq<CodeSymbol>,
    b: Seq<CodeSymbol>,
    ra: Seq<CodeRelation>,
    rb: Seq<CodeRelation>,
    c: SyntaxNode,
    scope: Seq<Seq<char>>,
    in_class: bool,
)
    requires
        extends(a, b),
        rel_extends(ra, rb),
        ts_item_held(src, a, ra, c, scope, in_class),
    ensures
        ts_item_held(src, b, rb, c, scope, in_class),
    decreases c, 2int,
{
    if c.kind@ == "lexical_declaration"@ {
        lemma_ts_declarators_extends(src, a, b, ra, rb, c, scope, "const"@.is_prefix_of(spec_node_text(src, c)));
    } else if c.kind@ != "method_definition"@ {
        lemma_ts_decl_deep_extends(src, a, b, ra, rb, c, scope, in_class);
    }
}

/// What a statement declares stays held as the lists grow.
pub proof fn lemma_ts_child_extends(
    src: Seq<u8>,
    a: Seq<CodeSymbol>,
    b: Seq<CodeSymbol>,
    ra: Seq<CodeRelation>,
    rb: Seq<CodeRelation>,
    c: SyntaxNode,
    scope: Seq<Seq<char>>,
    in_class: bool,
    owner: SymbolId,
)
    requires
        extends(a, b),
        rel_extends(ra, rb),
        ts_child_held(src, a, ra, c, scope, in_class, owner),
    ensures
        ts_child_held(src, b, rb, c, scope, in_class, owner),
    decreases c, 3int,
{
    if c.kind@ == "method_definition"@ {
        lemma_ts_decl_deep_extends(src, a, b, ra, rb, c, scope, in_class);
    } else if c.kind@ == "variable_declaration"@ {
        lemma_ts_declarators_extends(src, a, b, ra, rb, c, scope, false);
    } else if c.kind@ == "export_statement"@ {
        lemma_ts_module_ref_extends(src, ra, rb, c, owner);
        if spec_field_text(src, c, "source"@) is None {
            assert forall|j: int| 0 <= j < c.children@.len() implies ts_item_held(src, b, rb, #[trigger] c.children@[j], scope, in_class) by {
                lemma_ts_item_extends(src, a, b, ra, rb, c.children@[j], scope, in_class);
            }
        }
    } else if c.kind@ == "import_statement"@ {
        lemma_ts_module_ref_extends(src, ra, rb, c, owner);
    } else {
        lemma_ts_item_extends(src, a, b, ra, rb, c, scope, in_class);
    }
}

/// Visit the statements of a program or class body.
fn extract_children<'a, 's>(
    ctx: &VisitorContext<'a>,
    parent: &SyntaxNode,
    scope: &[&'s str],
    scope_id: SymbolId,
    in_class: bool,
    out: &mut ParseOutput,
) where 'a: 's
    requires
        visit_pre(*old(out), *ctx, *parent, scope_id),
    ensures
        visit_post(*old(out), *final(out), *ctx),
        new_from(old(out).symbols@, final(out).symbols@, *parent),
        forall|i: int|
            0 <= i < parent.children@.len() ==> ts_child_held(
                ctx.source.spec_bytes(),
                final(out).symbols@,
                final(out).relations@,
                #[trigger] parent.children@[i],
                str_views(scope@),
                in_class,
                scope_id,
            ),
    decreases *parent,
{
    let ghost len = ctx.source.spec_bytes().len();
    let ghost src = ctx.source.spec_bytes();
    let ghost sv = str_views(scope@);
    let ghost start = out.symbols@;
    proof {
        lemma_all_children_spans_ok(*parent, len);
    }
    let sibs = &parent.children;
    let mut i: usize = 0;
    while i < sibs.len()
        invariant
            sibs == &parent.children,
            i <= sibs@.len(),
            len == ctx.source.spec_bytes().len(),
            all_spans_ok(sibs@, len),
            ctx_ok(*out, *ctx),
            new_from(old(out).symbols@, out.symbols@, *parent),
            rel_extends(old(out).relations@, out.relations@),
            extends(start, out.symbols@),
            start == old(out).symbols@,
            owner_ok(out.symbols@, scope_id),
            src == ctx.source.spec_bytes(),
            sv == str_views(scope@),
            forall|j: int| 0 <= j < i ==> ts_child_held(src, out.symbols@, out.relations@, #[trigger] sibs@[j], sv, in_class, scope_id),
        decreases sibs@.len() - i,
    {
        let child = &sibs[i];
        let ghost before = out.symbols@;
        let ghost rbefore = out.relations@;
        proof {
            lemma_ts_kinds_distinct();
        }
        let k = child.kind.as_str();
        if str_eq(k, "class_declaration") || str_eq(k, "abstract_class_declaration") {
            extract_class(ctx, sibs, i, scope, scope_id, out);
        } else if str_eq(k, "function_declaration") {
            extract_function(ctx, sibs, i, scope, scope_id, in_class, out);
        } else if str_eq(k, "method_definition") {
            extract_method(ctx, sibs, i, scope, scope_id, out);
        } else if str_eq(k, "interface_declaration") {
            extract_interface(ctx, sibs, i, scope, scope_id, out);
        } else if str_eq(k, "type_alias_declaration") {
            extract_type_alias(ctx, sibs, i, scope, scope_id, out);
            proof {
                let kk = before.len() as int;
                match ts_decl_symbol(src, *child, in_class) {
                    Some(t) => {
                        assert(symbol_is(out.symbols@[kk], t.0, join_dotted(sv.push(t.0)), t.1, *child));
                        assert(ts_decl_body(src, out.symbols@, out.relations@, *child, sv.push(t.0), out.symbols@[kk].id));
                    },
                    None => {},
                }
            }

        } else if str_eq(k, "enum_declaration") {
            extract_enum(ctx, sibs, i, scope, scope_id, out);
            proof {
                let kk = before.len() as int;
                match ts_decl_symbol(src, *child, in_class) {
                    Some(t) => {
                        assert(symbol_is(out.symbols@[kk], t.0, join_dotted(sv.push(t.0)), t.1, *child));
                        assert(ts_decl_body(src, out.symbols@, out.relations@, *child, sv.push(t.0), out.symbols@[kk].id));
                    },
                    None => {},
                }
            }

        } else if str_eq(k, "import_statement") {
            extract_module_ref(ctx, child, scope_id, out);
            proof {
                match spec_field_text(src, *child, "source"@) {
                    Some(t) => if spec_unquote(t).len() > 0 {
                        let jj = rbefore.len() as int;
                        assert(out.relations@[jj] == out.relations@.last());
                    },
                    None => {},
                }
            }
        } else if str_eq(k, "export_statement") {
            extract_export(ctx, child, scope, scope_id, in_class, out);
        } else if str_eq(k, "lexical_declaration") {
            let is_const = str_starts_with(node_text(ctx, child), "const");
            extract_declarators(ctx, child, scope, scope_id, is_const, out);
        } else if str_eq(k, "variable_declaration") {
            extract_declarators(ctx, child, scope, scope_id, false, out);
        }
        proof {
            lemma_extends_owner(before, out.symbols@, scope_id);
            lemma_new_from_child(old(out).symbols@, before, out.symbols@, *parent, i as int);
            assert(ts_child_held(src, out.symbols@, out.relations@, *child, sv, in_class, scope_id));
            assert forall|j: int| 0 <= j < i + 1 implies ts_child_held(src, out.symbols@, out.relations@, #[trigger] sibs@[j], sv, in_class, scope_id) by {
                if j < i {
                    lemma_ts_child_extends(src, before, out.symbols@, rbefore, out.relations@, sibs@[j], sv, in_class, scope_id);
                }
            }
        }
        i = i + 1;
    }
}

/// The name of a declaration, from its `name` field.
fn decl_name<'a>(ctx: &VisitorContext<'a>, node: &SyntaxNode) -> (r: Option<&'a str>)
    requires
        spans_ok(*node, ctx.source.spec_bytes().len()),
    ensures
        opt_text(r) == spec_field_text(ctx.source.spec_bytes(), *node, "name"@),
{
    field_text(ctx, node, "name")
}

/// A class: its symbol, containment, heritage and body.
fn extract_class<'a, 's>(
    ctx: &VisitorContext<'a>,
    sibs: &Vec<SyntaxNode>,
    idx: usize,
    scope: &[&'s str],
    scope_id: SymbolId,
    out: &mut ParseOutput,
) where 'a: 's
    requires
        sib_pre(*old(out), *ctx, sibs@, idx as int, scope_id),
    ensures
        visit_post(*old(out), *final(out), *ctx),
        new_from(old(out).symbols@, final(out).symbols@, sibs@[idx as int]),
        spec_field_text(ctx.source.spec_bytes(), sibs@[idx as int], "name"@) is None ==> *final(out) == *old(out),
        spec_field_text(ctx.source.spec_bytes(), sibs@[idx as int], "name"@) matches Some(n) ==> {
            &&& added_named(old(out).symbols@, final(out).symbols@, n, str_views(scope@), SymbolKind::Class, sibs@[idx as int])
            &&& final(out).symbols@[old(out).symbols@.len() as int].signature matches Some(sg) && sg@ == "class "@ + n + match spec_first_kind_from(sibs@[idx as int].children@, "class_heritage"@, 0) {
                Some(i) => seq![' '] + spec_node_text(ctx.source.spec_bytes(), sibs@[idx as int].children@[i]),
                None => Seq::<char>::empty(),
            }
            &&& opt_string(final(out).symbols@[old(out).symbols@.len() as int].doc_comment) == spec_jsdoc(ctx.source.spec_bytes(), sibs@, idx as int)
        },
        (sibs@[idx as int].kind@ == "class_declaration"@ || sibs@[idx as int].kind@ == "abstract_class_declaration"@) ==> ts_decl_deep(
            ctx.source.spec_bytes(),
            final(out).symbols@,
            final(out).relations@,
            sibs@[idx as int],
            str_views(scope@),
            false,
        ),
    decreases sibs@[idx as int],
{
    proof {
        lemma_ts_kinds_distinct();
    }
    let ghost len = ctx.source.spec_bytes().len();
    let ghost src = ctx.source.spec_bytes();
    let ghost sv = str_views(scope@);
    let node = &sibs[idx];
    let name = match decl_name(ctx, node) {
        Some(n) => n,
        None => return,
    };
    let qname = qualified_name(scope, name);
    let signature = build_class_signature(ctx, node, name);
    let doc = extract_jsdoc(ctx, sibs, idx);
    let ghost before = out.symbols@;
    let sym_id = out.add_contained(ctx, node, name, qname, SymbolKind::Class, Some(signature), doc, scope_id, node.start_row);
    let ghost k = before.len() as int;
    let ghost inner = sv.push(name@);
    let ghost hi = ts_heritage_items(src, node.children@, node.children@.len() as int);
    assert(out.symbols@[k].id == sym_id);
    let ghost s0 = out.symbols@;
    let ghost r0 = out.relations@;
    extract_heritage(ctx, node, sym_id, out);
    proof {
        lemma_tagged_has(r0, out.relations@, sym_id, hi);
    }
    let ghost r1 = out.relations@;
    if let Some(body) = child_by_field(node, "body") {
        proof {
            lemma_child_spans_ok(*node, len, body as int);
        }
        let new_scope = extend_scope(scope, name);
        assert(str_views(new_scope@) =~= inner);
        extract_children(ctx, &node.children[body], new_scope.as_slice(), sym_id, true, out);
        proof {
            lemma_tagged_extends(r1, out.relations@, sym_id, hi);
        }
    }
    proof {
        assert(out.symbols@[k] == s0[k]);
        if node.kind@ == "class_declaration"@ || node.kind@ == "abstract_class_declaration"@ {
            assert(ts_decl_body(src, out.symbols@, out.relations@, *node, inner, out.symbols@[k].id));
        }
    }
}

/// A function: its symbol, containment, the calls in its body and the
/// definitions nested in it.
fn extract_function<'a, 's>(
    ctx: &VisitorContext<'a>,
    sibs: &Vec<SyntaxNode>,
    idx: usize,
    scope: &[&'s str],
    scope_id: SymbolId,
    in_class: bool,
    out: &mut ParseOutput,
) where 'a: 's
    requires
        sib_pre(*old(out), *ctx, sibs@, idx as int, scope_id),
    ensures
        visit_post(*old(out), *final(out), *ctx),
        new_from(old(out).symbols@, final(out).symbols@, sibs@[idx as int]),
        !(spec_field_text(ctx.source.spec_bytes(), sibs@[idx as int], "name"@) matches Some(n) && n.len() > 0) ==> *final(out) == *old(out),
        spec_field_text(ctx.source.spec_bytes(), sibs@[idx as int], "name"@) matches Some(n) ==> n.len() > 0 ==> {
            &&& added_named(old(out).symbols@, final(out).symbols@, n, str_views(scope@), if in_class { SymbolKind::Method } else { SymbolKind::Function }, sibs@[idx as int])
            &&& final(out).symbols@[old(out).symbols@.len() as int].signature matches Some(sg) && sg@ == ("function "@) + n + field_or(ctx.source.spec_bytes(), sibs@[idx as int], "parameters"@, "()"@) + field_after(
                ctx.source.spec_bytes(),
                sibs@[idx as int],
                "return_type"@,
                ": "@,
            )
            &&& opt_string(final(out).symbols@[old(out).symbols@.len() as int].doc_comment) == spec_jsdoc(ctx.source.spec_bytes(), sibs@, idx as int)
        },
        sibs@[idx as int].kind@ == "function_declaration"@ ==> ts_decl_deep(
            ctx.source.spec_bytes(),
            final(out).symbols@,
            final(out).relations@,
            sibs@[idx as int],
            str_views(scope@),
            in_class,
        ),
    decreases sibs@[idx as int],
{
    proof {
        lemma_ts_kinds_distinct();
    }
    let ghost len = ctx.source.spec_bytes().len();
    let ghost src = ctx.source.spec_bytes();
    let ghost sv = str_views(scope@);
    let node = &sibs[idx];
    let name = match decl_name(ctx, node) {
        Some(n) => n,
        None => return,
    };
    if name.unicode_len() == 0 {
        return;
    }
    let kind = if in_class {
        SymbolKind::Method
    } else {
        SymbolKind::Function
    };
    let qname = qualified_name(scope, name);
    let signature = build_callable_signature(ctx, node, name, true);
    let doc = extract_jsdoc(ctx, sibs, idx);
    let ghost before = out.symbols@;
    let sym_id = out.add_contained(ctx, node, name, qname, kind, Some(signature), doc, scope_id, node.start_row);
    let ghost k = before.len() as int;
    let ghost inner = sv.push(name@);
    assert(out.symbols@[k].id == sym_id);
    let ghost s0 = out.symbols@;
    if let Some(body) = child_by_field(node, "body") {
        proof {
            lemma_child_spans_ok(*node, len, body as int);
        }
        let body_node = &node.children[body];
        let ghost mid = out.symbols@;
        let ghost r0 = out.relations@;
        extract_calls(ctx, body_node, sym_id, out);
        proof {
            lemma_extends_owner(mid, out.symbols@, sym_id);
            lemma_appended_has(r0, out.relations@, sym_id, RelationKind::Calls, ts_calls_names(src, *body_node));
        }
        let ghost r1 = out.relations@;
        let new_scope = extend_scope(scope, name);
        assert(str_views(new_scope@) =~= inner);
        extract_nested_recursive(ctx, body_node, new_scope.as_slice(), sym_id, out);
        proof {
            lemma_relations_to_extends(r1, out.relations@, sym_id, RelationKind::Calls, ts_calls_names(src, *body_node));
        }
    }
    proof {
        assert(out.symbols@[k] == s0[k]);
        if node.kind@ == "function_declaration"@ {
            assert(ts_decl_body(src, out.symbols@, out.relations@, *node, inner, out.symbols@[k].id));
        }
    }
}

/// A class method: its symbol, containment and the calls in its body.
fn extract_method<'s>(
    ctx: &VisitorContext,
    sibs: &Vec<SyntaxNode>,
    idx: usize,
    scope: &[&'s str],
    scope_id: SymbolId,
    out: &mut ParseOutput,
)
    requires
        sib_pre(*old(out), *ctx, sibs@, idx as int, scope_id),
    ensures
        visit_post(*old(out), *final(out), *ctx),
        new_from(old(out).symbols@, final(out).symbols@, sibs@[idx as int]),
        !(spec_field_text(ctx.source.spec_bytes(), sibs@[idx as int], "name"@) matches Some(n) && n.len() > 0) ==> *final(out) == *old(out),
        spec_field_text(ctx.source.spec_bytes(), sibs@[idx as int], "name"@) matches Some(n) ==> n.len() > 0 ==> {
            &&& added_named(old(out).symbols@, final(out).symbols@, n, str_views(scope@), SymbolKind::Method, sibs@[idx as int])
            &&& final(out).symbols@[old(out).symbols@.len() as int].signature matches Some(sg) && sg@ == (Seq::<char>::empty()) + n + field_or(ctx.source.spec_bytes(), sibs@[idx as int], "parameters"@, "()"@) + field_after(
                ctx.source.spec_bytes(),
                sibs@[idx as int],
                "return_type"@,
                ": "@,
            )
            &&& opt_string(final(out).symbols@[old(out).symbols@.len() as int].doc_comment) == spec_jsdoc(ctx.source.spec_bytes(), sibs@, idx as int)
        },
        sibs@[idx as int].kind@ == "method_definition"@ ==> ts_decl_deep(
            ctx.source.spec_bytes(),
            final(out).symbols@,
            final(out).relations@,
            sibs@[idx as int],
            str_views(scope@),
            false,
        ),
{
    proof {
        lemma_ts_kinds_distinct();
    }
    let ghost len = ctx.source.spec_bytes().len();
    let node = &sibs[idx];
    let name = match decl_name(ctx, node) {
        Some(n) => n,
        None => return,
    };
    if name.unicode_len() == 0 {
        return;
    }
    let qname = qualified_name(scope, name);
    let signature = build_callable_signature(ctx, node, name, false);
    let doc = extract_jsdoc(ctx, sibs, idx);
    let ghost k = out.symbols@.len() as int;
    let sym_id = out.add_contained(ctx, node, name, qname, SymbolKind::Method, Some(signature), doc, scope_id, node.start_row);
    assert(out.symbols@[k].id == sym_id);
    let ghost s0 = out.symbols@;
    if let Some(body) = child_by_field(node, "body") {
        proof {
            lemma_child_spans_ok(*node, len, body as int);
        }
        let ghost r0 = out.relations@;
        extract_calls(ctx, &node.children[body], sym_id, out);
        proof {
            lemma_appended_has(r0, out.relations@, sym_id, RelationKind::Calls, ts_calls_names(ctx.source.spec_bytes(), node.children@[body as int]));
        }
    }
    proof {
        lemma_ts_kinds_distinct();
        assert(out.symbols@[k] == s0[k]);
        if node.kind@ == "method_definition"@ {
            assert(symbol_is(out.symbols@[k], name@, join_dotted(str_views(scope@).push(name@)), SymbolKind::Method, *node));
            assert(ts_decl_body(ctx.source.spec_bytes(), out.symbols@, out.relations@, *node, str_views(scope@).push(name@), out.symbols@[k].id));
        }
    }
}

/// An interface: its symbol, containment and the interfaces it extends.
fn extract_interface<'s>(
    ctx: &VisitorContext,
    sibs: &Vec<SyntaxNode>,
    idx: usize,
    scope: &[&'s str],
    scope_id: SymbolId,
    out: &mut ParseOutput,
)
    requires
        sib_pre(*old(out), *ctx, sibs@, idx as int, scope_id),
    ensures
        visit_post(*old(out), *final(out), *ctx),
        new_from(old(out).symbols@, final(out).symbols@, sibs@[idx as int]),
        spec_field_text(ctx.source.spec_bytes(), sibs@[idx as int], "name"@) is None ==> *final(out) == *old(out),
        spec_field_text(ctx.source.spec_bytes(), sibs@[idx as int], "name"@) matches Some(n) ==> {
            &&& added_named(old(out).symbols@, final(out).symbols@, n, str_views(scope@), SymbolKind::Interface, sibs@[idx as int])
            &&& final(out).symbols@[old(out).symbols@.len() as int].signature matches Some(sg) && sg@ == "interface"@ + seq![' '] + n
            &&& opt_string(final(out).symbols@[old(out).symbols@.len() as int].doc_comment) == spec_jsdoc(ctx.source.spec_bytes(), sibs@, idx as int)
        },
        sibs@[idx as int].kind@ == "interface_declaration"@ ==> ts_decl_deep(
            ctx.source.spec_bytes(),
            final(out).symbols@,
            final(out).relations@,
            sibs@[idx as int],
            str_views(scope@),
            false,
        ),
{
    let node = &sibs[idx];
    let name = match decl_name(ctx, node) {
        Some(n) => n,
        None => return,
    };
    let qname = qualified_name(scope, name);
    let doc = extract_jsdoc(ctx, sibs, idx);
    let sig = keyword_signature("interface", name);
    let ghost k = out.symbols@.len() as int;
    let sym_id = out.add_contained(ctx, node, name, qname, SymbolKind::Interface, Some(sig), doc, scope_id, node.start_row);
    assert(out.symbols@[k].id == sym_id);
    let ghost s0 = out.symbols@;
    let ghost r0 = out.relations@;
    extract_heritage(ctx, node, sym_id, out);
    proof {
        lemma_ts_kinds_distinct();
        let hi = ts_heritage_items(ctx.source.spec_bytes(), node.children@, node.children@.len() as int);
        lemma_tagged_has(r0, out.relations@, sym_id, hi);
        assert(out.symbols@[k] == s0[k]);
        if node.kind@ == "interface_declaration"@ {
            assert(symbol_is(out.symbols@[k], name@, join_dotted(str_views(scope@).push(name@)), SymbolKind::Interface, *node));
            assert(ts_decl_body(ctx.source.spec_bytes(), out.symbols@, out.relations@, *node, str_views(scope@).push(name@), out.symbols@[k].id));
        }
    }
}

/// A type alias: its symbol and containment.
fn extract_type_alias<'s>(
    ctx: &VisitorContext,
    sibs: &Vec<SyntaxNode>,
    idx: usize,
    scope: &[&'s str],
    scope_id: SymbolId,
    out: &mut ParseOutput,
)
    requires
        sib_pre(*old(out), *ctx, sibs@, idx as int, scope_id),
    ensures
        visit_post(*old(out), *final(out), *ctx),
        new_from(old(out).symbols@, final(out).symbols@, sibs@[idx as int]),
        spec_field_text(ctx.source.spec_bytes(), sibs@[idx as int], "name"@) is None ==> *final(out) == *old(out),
        spec_field_text(ctx.source.spec_bytes(), sibs@[idx as int], "name"@) matches Some(n) ==> {
            &&& added_named(old(out).symbols@, final(out).symbols@, n, str_views(scope@), SymbolKind::TypeAlias, sibs@[idx as int])
            &&& final(out).symbols@.len() == old(out).symbols@.len() + 1
            &&& final(out).symbols@[old(out).symbols@.len() as int].signature is None
            &&& opt_string(final(out).symbols@[old(out).symbols@.len() as int].doc_comment) == spec_jsdoc(ctx.source.spec_bytes(), sibs@, idx as int)
        },
{
    let node = &sibs[idx];
    let name = match decl_name(ctx, node) {
        Some(n) => n,
        None => return,
    };
    let qname = qualified_name(scope, name);
    let doc = extract_jsdoc(ctx, sibs, idx);
    let sym_id = out.add_contained(ctx, node, name, qname, SymbolKind::TypeAlias, None, doc, scope_id, node.start_row);
}

/// An enum: its symbol and containment.
fn extract_enum<'s>(
    ctx: &VisitorContext,
    sibs: &Vec<SyntaxNode>,
    idx: usize,
    scope: &[&'s str],
    scope_id: SymbolId,
    out: &mut ParseOutput,
)
    requires
        sib_pre(*old(out), *ctx, sibs@, idx as int, scope_id),
    ensures
        visit_post(*old(out), *final(out), *ctx),
        new_from(old(out).symbols@, final(out).symbols@, sibs@[idx as int]),
        spec_field_text(ctx.source.spec_bytes(), sibs@[idx as int], "name"@) is None ==> *final(out) == *old(out),
        spec_field_text(ctx.source.spec_bytes(), sibs@[idx as int], "name"@) matches Some(n) ==> {
            &&& added_named(old(out).symbols@, final(out).symbols@, n, str_views(scope@), SymbolKind::Enum, sibs@[idx as int])
            &&& final(out).symbols@.len() == old(out).symbols@.len() + 1
            &&& final(out).symbols@[old(out).symbols@.len() as int].signature matches Some(sg) && sg@ == "enum"@ + seq![' '] + n
            &&& opt_string(final(out).symbols@[old(out).symbols@.len() as int].doc_comment) == spec_jsdoc(ctx.source.spec_bytes(), sibs@, idx as int)
        },
{
    let node = &sibs[idx];
    let name = match decl_name(ctx, node) {
        Some(n) => n,
        None => return,
    };
    let qname = qualified_name(scope, name);
    let doc = extract_jsdoc(ctx, sibs, idx);
    let sig = keyword_signature("enum", name);
    let sym_id = out.add_contained(ctx, node, name, qname, SymbolKind::Enum, Some(sig), doc, scope_id, node.start_row);
}

/// An import (or re-export) relation to the module named by the node's
/// `source` field, without its quotes; none when that name is empty.
/// Whether the node has a `source` field.
fn extract_module_ref(ctx: &VisitorContext, node: &SyntaxNode, scope_id: SymbolId, out: &mut ParseOutput) -> (r: bool)
    requires
        visit_pre(*old(out), *ctx, *node, scope_id),
    ensures
        visit_post(*old(out), *final(out), *ctx),
        new_from(old(out).symbols@, final(out).symbols@, *node),
        final(out).symbols@ == old(out).symbols@,
        r == (spec_field_text(ctx.source.spec_bytes(), *node, "source"@) is Some),
        spec_field_text(ctx.source.spec_bytes(), *node, "source"@) matches Some(t) ==> (spec_unquote(t).len() > 0 ==> pushed_relation(
            old(out).relations@,
            final(out).relations@,
            scope_id,
            SymbolId(phantom_id(spec_unquote(t))),
            RelationKind::Imports,
        )),
        !(spec_field_text(ctx.source.spec_bytes(), *node, "source"@) matches Some(t) && spec_unquote(t).len() > 0) ==> *final(out) == *old(out),
{
    match field_text(ctx, node, "source") {
        Some(specifier) => {
            let module_name = unquote(specifier);
            if module_name.as_str().unicode_len() > 0 {
                let target_id = phantom_of(module_name.as_str());
                out.add_relation(ctx, scope_id, target_id, RelationKind::Imports, node.start_row);
            }
            true
        },
        None => false,
    }
}

/// An export: a re-export is an import of its source module; otherwise the
/// declarations it wraps.
fn extract_export<'a, 's>(
    ctx: &VisitorContext<'a>,
    node: &SyntaxNode,
    scope: &[&'s str],
    scope_id: SymbolId,
    in_class: bool,
    out: &mut ParseOutput,
) where 'a: 's
    requires
        visit_pre(*old(out), *ctx, *node, scope_id),
    ensures
        visit_post(*old(out), *final(out), *ctx),
        new_from(old(out).symbols@, final(out).symbols@, *node),
        ts_export_held(ctx.source.spec_bytes(), final(out).symbols@, final(out).relations@, *node, str_views(scope@), in_class, scope_id),
    decreases *node,
{
    let ghost len = ctx.source.spec_bytes().len();
    let ghost src = ctx.source.spec_bytes();
    let ghost sv = str_views(scope@);
    let ghost r0 = out.relations@;
    let is_reexport = extract_module_ref(ctx, node, scope_id, out);
    proof {
        match spec_field_text(src, *node, "source"@) {
            Some(t) => if spec_unquote(t).len() > 0 {
                let jj = r0.len() as int;
                assert(out.relations@[jj] == out.relations@.last());
            },
            None => {},
        }
    }
    if is_reexport {
        return;
    }
    let ghost start = out.symbols@;
    proof {
        lemma_all_children_spans_ok(*node, len);
    }
    let sibs = &node.children;
    let mut i: usize = 0;
    while i < sibs.len()
        invariant
            sibs == &node.children,
            i <= sibs@.len(),
            len == ctx.source.spec_bytes().len(),
            all_spans_ok(sibs@, len),
            ctx_ok(*out, *ctx),
            new_from(old(out).symbols@, out.symbols@, *node),
            rel_extends(old(out).relations@, out.relations@),
            extends(start, out.symbols@),
            start == old(out).symbols@,
            owner_ok(out.symbols@, scope_id),
            src == ctx.source.spec_bytes(),
            sv == str_views(scope@),
            spec_field_text(src, *node, "source"@) is None,
            forall|j: int| 0 <= j < i ==> ts_item_held(src, out.symbols@, out.relations@, #[trigger] sibs@[j], sv, in_class),
        decreases sibs@.len() - i,
    {
        let child = &sibs[i];
        let ghost before = out.symbols@;
        let ghost rbefore = out.relations@;
        proof {
            lemma_ts_kinds_distinct();
        }
        let k = child.kind.as_str();
        if str_eq(k, "class_declaration") || str_eq(k, "abstract_class_declaration") {
            extract_class(ctx, sibs, i, scope, scope_id, out);
        } else if str_eq(k, "function_declaration") {
            extract_function(ctx, sibs, i, scope, scope_id, in_class, out);
        } else if str_eq(k, "interface_declaration") {
            extract_interface(ctx, sibs, i, scope, scope_id, out);
        } else if str_eq(k, "type_alias_declaration") {
            extract_type_alias(ctx, sibs, i, scope, scope_id, out);
            proof {
                let kk = before.len() as int;
                match ts_decl_symbol(src, *child, in_class) {
                    Some(t) => {
                        assert(symbol_is(out.symbols@[kk], t.0, join_dotted(sv.push(t.0)), t.1, *child));
                        assert(ts_decl_body(src, out.symbols@, out.relations@, *child, sv.push(t.0), out.symbols@[kk].id));
                    },
                    None => {},
                }
            }

        } else if str_eq(k, "enum_declaration") {
            extract_enum(ctx, sibs, i, scope, scope_id, out);
            proof {
                let kk = before.len() as int;
                match ts_decl_symbol(src, *child, in_class) {
                    Some(t) => {
                        assert(symbol_is(out.symbols@[kk], t.0, join_dotted(sv.push(t.0)), t.1, *child));
                        assert(ts_decl_body(src, out.symbols@, out.relations@, *child, sv.push(t.0), out.symbols@[kk].id));
                    },
                    None => {},
                }
            }

        } else if str_eq(k, "lexical_declaration") {
            let is_const = str_starts_with(node_text(ctx, child), "const");
            extract_declarators(ctx, child, scope, scope_id, is_const, out);
        }
        proof {
            lemma_extends_owner(before, out.symbols@, scope_id);
            lemma_new_from_child(old(out).symbols@, before, out.symbols@, *node, i as int);
            assert(ts_item_held(src, out.symbols@, out.relations@, *child, sv, in_class));
            assert forall|j: int| 0 <= j < i + 1 implies ts_item_held(src, out.symbols@, out.relations@, #[trigger] sibs@[j], sv, in_class) by {
                if j < i {
                    lemma_ts_item_extends(src, before, out.symbols@, rbefore, out.relations@, sibs@[j], sv, in_class);
                }
            }
        }
        i = i + 1;
    }
}

/// The variable declarators of a `const`, `let` or `var` declaration.
fn extract_declarators<'a, 's>(
    ctx: &VisitorContext<'a>,
    node: &SyntaxNode,
    scope: &[&'s str],
    scope_id: SymbolId,
    is_const: bool,
    out: &mut ParseOutput,
) where 'a: 's
    requires
        visit_pre(*old(out), *ctx, *node, scope_id),
    ensures
        visit_post(*old(out), *final(out), *ctx),
        new_from(old(out).symbols@, final(out).symbols@, *node),
        ts_declarators_held(ctx.source.spec_bytes(), final(out).symbols@, final(out).relations@, *node, str_views(scope@), is_const),
{
    let ghost len = ctx.source.spec_bytes().len();
    let ghost src = ctx.source.spec_bytes();
    let ghost sv = str_views(scope@);
    let ghost start = out.symbols@;
    let mut i: usize = 0;
    while i < node.children.len()
        invariant
            i <= node.children@.len(),
            len == ctx.source.spec_bytes().len(),
            src == ctx.source.spec_bytes(),
            sv == str_views(scope@),
            spans_ok(*node, len),
            ctx_ok(*out, *ctx),
            new_from(old(out).symbols@, out.symbols@, *node),
            rel_extends(old(out).relations@, out.relations@),
            extends(start, out.symbols@),
            start == old(out).symbols@,
            owner_ok(out.symbols@, scope_id),
            forall|j: int|
                0 <= j < i && (#[trigger] node.children@[j]).kind@ == "variable_declarator"@ ==> ts_declarator_held(
                    src,
                    out.symbols@,
                    out.relations@,
                    node.children@[j],
                    sv,
                    is_const,
                ),
        decreases node.children@.len() - i,
    {
        let child = &node.children[i];
        proof {
            lemma_child_spans_ok(*node, len, i as int);
        }
        let ghost before = out.symbols@;
        let ghost rbefore = out.relations@;
        if str_eq(child.kind.as_str(), "variable_declarator") {
            extract_variable_declarator(ctx, child, scope, scope_id, is_const, out);
        }
        proof {
            lemma_extends_owner(before, out.symbols@, scope_id);
            lemma_new_from_child(old(out).symbols@, before, out.symbols@, *node, i as int);
            assert forall|j: int|
                0 <= j < i + 1 && (#[trigger] node.children@[j]).kind@ == "variable_declarator"@ implies ts_declarator_held(
                    src,
                    out.symbols@,
                    out.relations@,
                    node.children@[j],
                    sv,
                    is_const,
                ) by {
                if j < i {
                    lemma_ts_declarator_extends(src, before, out.symbols@, rbefore, out.relations@, node.children@[j], sv, is_const);
                }
            }
        }
        i = i + 1;
    }
}

/// A variable: a function when its value is an arrow function or function
/// expression, else a constant or variable; the calls in its value.
fn extract_variable_declarator<'s>(
    ctx: &VisitorContext,
    node: &SyntaxNode,
    scope: &[&'s str],
    scope_id: SymbolId,
    is_const: bool,
    out: &mut ParseOutput,
)
    requires
        visit_pre(*old(out), *ctx, *node, scope_id),
    ensures
        visit_post(*old(out), *final(out), *ctx),
        new_from(old(out).symbols@, final(out).symbols@, *node),
        !(spec_field_text(ctx.source.spec_bytes(), *node, "name"@) matches Some(n) && n.len() > 0) ==> *final(out) == *old(out),
        spec_field_text(ctx.source.spec_bytes(), *node, "name"@) matches Some(n) ==> n.len() > 0 ==> {
            &&& added_named(old(out).symbols@, final(out).symbols@, n, str_views(scope@), if (spec_child_by_field(*node, "value"@) matches Some(v) && (node.children@[v].kind@ == "arrow_function"@
                || node.children@[v].kind@ == "function"@)) {
                SymbolKind::Function
            } else if is_const {
                SymbolKind::Constant
            } else {
                SymbolKind::Variable
            }, *node)
            &&& final(out).symbols@[old(out).symbols@.len() as int].signature is None
        },
        ts_declarator_held(ctx.source.spec_bytes(), final(out).symbols@, final(out).relations@, *node, str_views(scope@), is_const),
{
    let ghost len = ctx.source.spec_bytes().len();
    let name = match decl_name(ctx, node) {
        Some(n) => n,
        None => return,
    };
    if name.unicode_len() == 0 {
        return;
    }
    let value = child_by_field(node, "value");
    let is_func_value = match value {
        Some(v) => str_eq(node.children[v].kind.as_str(), "arrow_function") || str_eq(
            node.children[v].kind.as_str(),
            "function",
        ),
        None => false,
    };
    let kind = if is_func_value {
        SymbolKind::Function
    } else if is_const {
        SymbolKind::Constant
    } else {
        SymbolKind::Variable
    };
    let qname = qualified_name(scope, name);
    let ghost k = out.symbols@.len() as int;
    let sym_id = out.add_contained(ctx, node, name, qname, kind, None, None, scope_id, node.start_row);
    assert(out.symbols@[k].id == sym_id);
    let ghost s0 = out.symbols@;
    if let Some(v) = value {
        proof {
            lemma_child_spans_ok(*node, len, v as int);
        }
        let ghost r0 = out.relations@;
        extract_calls(ctx, &node.children[v], sym_id, out);
        proof {
            lemma_appended_has(r0, out.relations@, sym_id, RelationKind::Calls, ts_calls_names(ctx.source.spec_bytes(), node.children@[v as int]));
        }
    }
    proof {
        assert(out.symbols@[k] == s0[k]);
        assert(symbol_is(out.symbols@[k], name@, join_dotted(str_views(scope@).push(name@)), kind, *node));
    }
}

/// The relations a class heritage's clauses among `ch[..j]` make, in
/// order: `extends` ones inherit, `implements` ones implement.
pub open spec fn ts_clause_items(src: Seq<u8>, ch: Seq<SyntaxNode>, j: int) -> Seq<(RelationKind, Seq<char>)>
    decreases j,
{
    if j <= 0 || j > ch.len() {
        Seq::empty()
    } else {
        let h = ch[j - 1];
        ts_clause_items(src, ch, j - 1) + if h.kind@ == "extends_clause"@ {
            tagged(RelationKind::Inherits, heritage_names(src, h.children@, h.children@.len() as int))
        } else if h.kind@ == "implements_clause"@ {
            tagged(RelationKind::Implements, heritage_names(src, h.children@, h.children@.len() as int))
        } else {
            Seq::empty()
        }
    }
}

/// The relations the heritage among a class or interface's children
/// `ch[..i]` makes, in order: those of a class heritage's clauses, and an
/// interface's extended types as inherited.
pub open spec fn ts_heritage_items(src: Seq<u8>, ch: Seq<SyntaxNode>, i: int) -> Seq<(RelationKind, Seq<char>)>
    decreases i,
{
    if i <= 0 || i > ch.len() {
        Seq::empty()
    } else {
        let c = ch[i - 1];
        ts_heritage_items(src, ch, i - 1) + if c.kind@ == "class_heritage"@ {
            ts_clause_items(src, c.children@, c.children@.len() as int)
        } else if c.kind@ == "extends_clause"@ || c.kind@ == "extends_type_clause"@ {
            tagged(RelationKind::Inherits, heritage_names(src, c.children@, c.children@.len() as int))
        } else {
            Seq::empty()
        }
    }
}

/// Inheritance and implementation relations from a class or interface's
/// heritage clauses.
fn extract_heritage(ctx: &VisitorContext, node: &SyntaxNode, class_id: SymbolId, out: &mut ParseOutput)
    requires
        visit_pre(*old(out), *ctx, *node, class_id),
    ensures
        visit_post(*old(out), *final(out), *ctx),
        new_from(old(out).symbols@, final(out).symbols@, *node),
        final(out).symbols@ == old(out).symbols@,
        appended_tagged(
            old(out).relations@,
            final(out).relations@,
            class_id,
            ts_heritage_items(ctx.source.spec_bytes(), node.children@, node.children@.len() as int),
        ),
{
    let ghost len = ctx.source.spec_bytes().len();
    let ghost src = ctx.source.spec_bytes();
    proof {
        lemma_tagged_none(out.relations@, class_id);
    }
    let mut i: usize = 0;
    while i < node.children.len()
        invariant
            i <= node.children@.len(),
            len == ctx.source.spec_bytes().len(),
            src == ctx.source.spec_bytes(),
            spans_ok(*node, len),
            ctx_ok(*out, *ctx),
            new_from(old(out).symbols@, out.symbols@, *node),
            rel_extends(old(out).relations@, out.relations@),
            out.symbols@ == old(out).symbols@,
            owner_ok(out.symbols@, class_id),
            appended_tagged(old(out).relations@, out.relations@, class_id, ts_heritage_items(src, node.children@, i as int)),
        decreases node.children@.len() - i,
    {
        let child = &node.children[i];
        let ghost before = out.relations@;
        proof {
            lemma_child_spans_ok(*node, len, i as int);
            lemma_tagged_none(out.relations@, class_id);
        }
        let k = child.kind.as_str();
        if str_eq(k, "class_heritage") {
            let mut j: usize = 0;
            while j < child.children.len()
                invariant
                    j <= child.children@.len(),
                    len == ctx.source.spec_bytes().len(),
                    src == ctx.source.spec_bytes(),
                    spans_ok(*child, len),
                    ctx_ok(*out, *ctx),
                    new_from(old(out).symbols@, out.symbols@, *node),
                    rel_extends(old(out).relations@, out.relations@),
                    out.symbols@ == old(out).symbols@,
                    owner_ok(out.symbols@, class_id),
                    appended_tagged(before, out.relations@, class_id, ts_clause_items(src, child.children@, j as int)),
                decreases child.children@.len() - j,
            {
                let h = &child.children[j];
                let ghost mid = out.relations@;
                proof {
                    lemma_child_spans_ok(*child, len, j as int);
                    lemma_tagged_none(out.relations@, class_id);
                }
                if str_eq(h.kind.as_str(), "extends_clause") {
                    extract_heritage_names(ctx, h, class_id, RelationKind::Inherits, out);
                    proof {
                        lemma_tagged_from_phantoms(mid, out.relations@, class_id, RelationKind::Inherits, heritage_names(src, h.children@, h.children@.len() as int));
                    }
                } else if str_eq(h.kind.as_str(), "implements_clause") {
                    extract_heritage_names(ctx, h, class_id, RelationKind::Implements, out);
                    proof {
                        lemma_tagged_from_phantoms(mid, out.relations@, class_id, RelationKind::Implements, heritage_names(src, h.children@, h.children@.len() as int));
                    }
                }
                proof {
                    lemma_tagged_all(
                        before,
                        mid,
                        out.relations@,
                        class_id,
                        ts_clause_items(src, child.children@, j as int),
                        if h.kind@ == "extends_clause"@ {
                            tagged(RelationKind::Inherits, heritage_names(src, h.children@, h.children@.len() as int))
                        } else if h.kind@ == "implements_clause"@ {
                            tagged(RelationKind::Implements, heritage_names(src, h.children@, h.children@.len() as int))
                        } else {
                            Seq::empty()
                        },
                    );
                }
                j = j + 1;
            }
        } else if str_eq(k, "extends_clause") || str_eq(k, "extends_type_clause") {
            extract_heritage_names(ctx, child, class_id, RelationKind::Inherits, out);
            proof {
                lemma_tagged_from_phantoms(before, out.relations@, class_id, RelationKind::Inherits, heritage_names(src, child.children@, child.children@.len() as int));
            }
        }
        proof {
            lemma_tagged_all(
                old(out).relations@,
                before,
                out.relations@,
                class_id,
                ts_heritage_items(src, node.children@, i as int),
                if child.kind@ == "class_heritage"@ {
                    ts_clause_items(src, child.children@, child.children@.len() as int)
                } else if child.kind@ == "extends_clause"@ || child.kind@ == "extends_type_clause"@ {
                    tagged(RelationKind::Inherits, heritage_names(src, child.children@, child.children@.len() as int))
                } else {
                    Seq::empty()
                },
            );
        }
        i = i + 1;
    }
}

/// The names of the types among the first `n` children of a heritage
/// clause: identifiers, type identifiers and member expressions by their
/// text, generic types by their `name` field; empty names left out.
pub open spec fn heritage_names(src: Seq<u8>, ch: Seq<SyntaxNode>, n: int) -> Seq<Seq<char>>
    decreases n,
{
    if n <= 0 {
        Seq::empty()
    } else {
        let prev = heritage_names(src, ch, n - 1);
        let c = ch[n - 1];
        let k = c.kind@;
        if k == "identifier"@ || k == "type_identifier"@ || k == "member_expression"@ || k == "generic_type"@ {
            let name = if k == "generic_type"@ { field_or(src, c, "name"@, Seq::empty()) } else { spec_node_text(src, c) };
            if name.len() > 0 { prev.push(name) } else { prev }
        } else {
            prev
        }
    }
}

/// One relation of the given kind per type named in a heritage clause; a
/// generic type counts by its name.
fn extract_heritage_names(
    ctx: &VisitorContext,
    clause: &SyntaxNode,
    class_id: SymbolId,
    kind: RelationKind,
    out: &mut ParseOutput,
)
    requires
        visit_pre(*old(out), *ctx, *clause, class_id),
        kind != RelationKind::Contains,
    ensures
        visit_post(*old(out), *final(out), *ctx),
        new_from(old(out).symbols@, final(out).symbols@, *clause),
        final(out).symbols@ == old(out).symbols@,
        appended_to_phantoms(
            old(out).relations@,
            final(out).relations@,
            class_id,
            kind,
            heritage_names(ctx.source.spec_bytes(), clause.children@, clause.children@.len() as int),
        ),
{
    let ghost len = ctx.source.spec_bytes().len();
    assert(old(out).relations@.take(old(out).relations@.len() as int) =~= old(out).relations@);
    let mut i: usize = 0;
    while i < clause.children.len()
        invariant
            i <= clause.children@.len(),
            len == ctx.source.spec_bytes().len(),
            spans_ok(*clause, len),
            ctx_ok(*out, *ctx),
            new_from(old(out).symbols@, out.symbols@, *clause),
            rel_extends(old(out).relations@, out.relations@),
            out.symbols@ == old(out).symbols@,
            owner_ok(out.symbols@, class_id),
            kind != RelationKind::Contains,
            appended_to_phantoms(
                old(out).relations@,
                out.relations@,
                class_id,
                kind,
                heritage_names(ctx.source.spec_bytes(), clause.children@, i as int),
            ),
        decreases clause.children@.len() - i,
    {
        let child = &clause.children[i];
        proof {
            lemma_child_spans_ok(*clause, len, i as int);
        }
        let k = child.kind.as_str();
        if str_eq(k, "identifier") || str_eq(k, "type_identifier") || str_eq(k, "member_expression") || str_eq(
            k,
            "generic_type",
        ) {
            proof {
                reveal_strlit("");
            }
            let name = if str_eq(k, "generic_type") {
                match field_text(ctx, child, "name") {
                    Some(n) => n,
                    None => "",
                }
            } else {
                node_text(ctx, child)
            };
            if name.unicode_len() > 0 {
                let target_id = phantom_of(name);
                let ghost mid = out.relations@;
                out.add_relation(ctx, class_id, target_id, kind, child.start_row);
                proof {
                    lemma_append_phantom(
                        old(out).relations@,
                        mid,
                        out.relations@,
                        class_id,
                        kind,
                        heritage_names(ctx.source.spec_bytes(), clause.children@, i as int),
                        name@,
                    );
                }
            }
        }
        i = i + 1;
    }
}

/// A call relation to the callee named by the field `field` of a call node.
fn push_call(ctx: &VisitorContext, call: &SyntaxNode, field: &str, caller_id: SymbolId, out: &mut ParseOutput)
    requires
        visit_pre(*old(out), *ctx, *call, caller_id),
    ensures
        visit_post(*old(out), *final(out), *ctx),
        new_from(old(out).symbols@, final(out).symbols@, *call),
        final(out).symbols@ == old(out).symbols@,
        match spec_field_text(ctx.source.spec_bytes(), *call, field@) {
            Some(t) => if t.len() > 0 {
                pushed_relation(old(out).relations@, final(out).relations@, caller_id, SymbolId(phantom_id(t)), RelationKind::Calls)
            } else {
                final(out).relations@ == old(out).relations@
            },
            None => final(out).relations@ == old(out).relations@,
        },
{
    if let Some(callee_name) = field_text(ctx, call, field) {
        if callee_name.unicode_len() > 0 {
            let target_id = phantom_of(callee_name);
            out.add_relation(ctx, caller_id, target_id, RelationKind::Calls, call.start_row);
            assert(out.relations@.drop_last() =~= old(out).relations@);
        }
    }
}

/// The callee a child names itself: a call's `function` field or a `new` expression's `constructor` field, when not empty.
pub open spec fn ts_calls_here(src: Seq<u8>, c: SyntaxNode) -> Seq<Seq<char>> {
    if c.kind@ == "call_expression"@ && spec_field_text(src, c, "function"@) is Some && spec_field_text(src, c, "function"@)->0.len() > 0 {
        seq![spec_field_text(src, c, "function"@)->0]
    } else if c.kind@ == "new_expression"@ && spec_field_text(src, c, "constructor"@) is Some && spec_field_text(src, c, "constructor"@)->0.len() > 0 {
        seq![spec_field_text(src, c, "constructor"@)->0]
    } else {
        Seq::empty()
    }
}

/// The callee names under a node, in traversal order.
pub open spec fn ts_calls_names(src: Seq<u8>, node: SyntaxNode) -> Seq<Seq<char>>
    decreases node, node.children@.len() + 1,
{
    ts_calls_names_upto(src, node, node.children@.len() as int)
}

/// `ts_calls_names` over the first `n` children.
pub open spec fn ts_calls_names_upto(src: Seq<u8>, node: SyntaxNode, n: int) -> Seq<Seq<char>>
    decreases node, n,
{
    if n <= 0 || n > node.children@.len() {
        Seq::empty()
    } else {
        let c = node.children@[n - 1];
        ts_calls_names_upto(src, node, n - 1) + ts_calls_here(src, c) + if c.kind@ != "function_declaration"@ && c.kind@ != "class_declaration"@ && c.kind@ != "arrow_function"@ {
            ts_calls_names(src, c)
        } else {
            Seq::empty()
        }
    }
}

/// Call relations for the calls and `new` expressions under a node, not
/// looking into nested functions, classes and arrow functions.
fn extract_calls(ctx: &VisitorContext, node: &SyntaxNode, caller_id: SymbolId, out: &mut ParseOutput)
    requires
        visit_pre(*old(out), *ctx, *node, caller_id),
    ensures
        visit_post(*old(out), *final(out), *ctx),
        new_from(old(out).symbols@, final(out).symbols@, *node),
        final(out).symbols@ == old(out).symbols@,
        appended_to_phantoms(
            old(out).relations@,
            final(out).relations@,
            caller_id,
            RelationKind::Calls,
            ts_calls_names(ctx.source.spec_bytes(), *node),
        ),
    decreases *node,
{
    let ghost len = ctx.source.spec_bytes().len();
    proof {
        lemma_append_none(old(out).relations@, caller_id, RelationKind::Calls);
    }
    let mut i: usize = 0;
    while i < node.children.len()
        invariant
            i <= node.children@.len(),
            len == ctx.source.spec_bytes().len(),
            spans_ok(*node, len),
            ctx_ok(*out, *ctx),
            new_from(old(out).symbols@, out.symbols@, *node),
            rel_extends(old(out).relations@, out.relations@),
            out.symbols@ == old(out).symbols@,
            owner_ok(out.symbols@, caller_id),
            appended_to_phantoms(
                old(out).relations@,
                out.relations@,
                caller_id,
                RelationKind::Calls,
                ts_calls_names_upto(ctx.source.spec_bytes(), *node, i as int),
            ),
        decreases node.children@.len() - i,
    {
        let child = &node.children[i];
        proof {
            lemma_child_spans_ok(*node, len, i as int);
        }
        let ghost mid = out.relations@;
        let ghost pre = ts_calls_names_upto(ctx.source.spec_bytes(), *node, i as int);
        let k = child.kind.as_str();
        if str_eq(k, "call_expression") {
            push_call(ctx, child, "function", caller_id, out);
            proof {
                let ft = spec_field_text(ctx.source.spec_bytes(), *child, "function"@);
                if ft is Some && ft->0.len() > 0 {
                    lemma_append_phantom(old(out).relations@, mid, out.relations@, caller_id, RelationKind::Calls, pre, ft->0);
                    assert(pre.push(ft->0) =~= pre + seq![ft->0]);
                }
            }
        }
        proof {
            reveal_strlit("call_expression");
            reveal_strlit("new_expression");
            assert("call_expression"@ != "new_expression"@) by {
                assert("call_expression"@.len() != "new_expression"@.len());
            }
        }
        if str_eq(k, "new_expression") {
            push_call(ctx, child, "constructor", caller_id, out);
            proof {
                let ft = spec_field_text(ctx.source.spec_bytes(), *child, "constructor"@);
                if ft is Some && ft->0.len() > 0 {
                    lemma_append_phantom(old(out).relations@, mid, out.relations@, caller_id, RelationKind::Calls, pre, ft->0);
                    assert(pre.push(ft->0) =~= pre + seq![ft->0]);
                }
            }
        }
        let ghost here = ts_calls_here(ctx.source.spec_bytes(), *child);
        proof {
            if here.len() == 0 {
                assert(pre + here =~= pre);
            }
        }
        assert(appended_to_phantoms(old(out).relations@, out.relations@, caller_id, RelationKind::Calls, pre + here));
        let ghost mid2 = out.relations@;
        if !str_eq(k, "function_declaration") && !str_eq(k, "class_declaration") && !str_eq(k, "arrow_function") {
            extract_calls(ctx, child, caller_id, out);
            proof {
                lemma_append_all(
                    old(out).relations@,
                    mid2,
                    out.relations@,
                    caller_id,
                    RelationKind::Calls,
                    pre + here,
                    ts_calls_names(ctx.source.spec_bytes(), *child),
                );
            }
        } else {
            assert(pre + here + Seq::<Seq<char>>::empty() =~= pre + here);
        }
        i = i + 1;
    }
}

/// The statement kinds that can hold nested functions and classes.
pub open spec fn ts_compound_kind(k: Seq<char>) -> bool {
    k == "if_statement"@ || k == "for_statement"@ || k == "for_in_statement"@ || k == "while_statement"@ || k == "try_statement"@
        || k == "switch_statement"@ || k == "statement_block"@ || k == "catch_clause"@ || k == "finally_clause"@
}

/// `syms` holds a symbol for each function and class nested in `node`,
/// `syms` and `rels` hold what each function and class nested in `node`
/// declares, also inside control flow, scoped in `scope`.
pub open spec fn ts_nested_held(src: Seq<u8>, syms: Seq<CodeSymbol>, rels: Seq<CodeRelation>, node: SyntaxNode, scope: Seq<Seq<char>>) -> bool
    decreases node, node.children@.len() + 5,
{
    ts_nested_held_upto(src, syms, rels, node, scope, node.children@.len() as int)
}

/// `ts_nested_held` over the first `n` children.
pub open spec fn ts_nested_held_upto(
    src: Seq<u8>,
    syms: Seq<CodeSymbol>,
    rels: Seq<CodeRelation>,
    node: SyntaxNode,
    scope: Seq<Seq<char>>,
    n: int,
) -> bool
    decreases node, n + 4,
{
    if n <= 0 || n > node.children@.len() {
        true
    } else {
        let c = node.children@[n - 1];
        &&& ts_nested_held_upto(src, syms, rels, node, scope, n - 1)
        &&& if c.kind@ == "function_declaration"@ || c.kind@ == "class_declaration"@ || c.kind@ == "abstract_class_declaration"@ {
            ts_decl_deep(src, syms, rels, c, scope, false)
        } else if ts_compound_kind(c.kind@) {
            ts_nested_held(src, syms, rels, c, scope)
        } else {
            true
        }
    }
}

/// Nested functions and classes stay held as the lists grow.
pub proof fn lemma_ts_nested_extends(
    src: Seq<u8>,
    a: Seq<CodeSymbol>,
    b: Seq<CodeSymbol>,
    ra: Seq<CodeRelation>,
    rb: Seq<CodeRelation>,
    node: SyntaxNode,
    scope: Seq<Seq<char>>,
)
    requires
        extends(a, b),
        rel_extends(ra, rb),
        ts_nested_held(src, a, ra, node, scope),
    ensures
        ts_nested_held(src, b, rb, node, scope),
    decreases node, node.children@.len() + 5,
{
    lemma_ts_nested_upto_extends(src, a, b, ra, rb, node, scope, node.children@.len() as int);
}

/// `lemma_ts_nested_extends` over the first `n` children.
pub proof fn lemma_ts_nested_upto_extends(
    src: Seq<u8>,
    a: Seq<CodeSymbol>,
    b: Seq<CodeSymbol>,
    ra: Seq<CodeRelation>,
    rb: Seq<CodeRelation>,
    node: SyntaxNode,
    scope: Seq<Seq<char>>,
    n: int,
)
    requires
        extends(a, b),
        rel_extends(ra, rb),
        ts_nested_held_upto(src, a, ra, node, scope, n),
    ensures
        ts_nested_held_upto(src, b, rb, node, scope, n),
    decreases node, n + 4,
{
    if 0 < n <= node.children@.len() {
        lemma_ts_nested_upto_extends(src, a, b, ra, rb, node, scope, n - 1);
        let c = node.children@[n - 1];
        if c.kind@ == "function_declaration"@ || c.kind@ == "class_declaration"@ || c.kind@ == "abstract_class_declaration"@ {
            lemma_ts_decl_deep_extends(src, a, b, ra, rb, c, scope, false);
        } else if ts_compound_kind(c.kind@) {
            lemma_ts_nested_extends(src, a, b, ra, rb, c, scope);
        }
    }
}

/// Whether a statement kind can hold nested definitions.
fn is_compound_kind(k: &str) -> (r: bool)
    ensures
        r == ts_compound_kind(k@),
{
    str_eq(k, "if_statement") || str_eq(k, "for_statement") || str_eq(k, "for_in_statement") || str_eq(
        k,
        "while_statement",
    ) || str_eq(k, "try_statement") || str_eq(k, "switch_statement") || str_eq(k, "statement_block") || str_eq(
        k,
        "catch_clause",
    ) || str_eq(k, "finally_clause")
}

/// Functions and classes nested in a function body, also inside control
/// flow.
fn extract_nested_recursive<'a, 's>(
    ctx: &VisitorContext<'a>,
    node: &SyntaxNode,
    scope: &[&'s str],
    parent_id: SymbolId,
    out: &mut ParseOutput,
) where 'a: 's
    requires
        visit_pre(*old(out), *ctx, *node, parent_id),
    ensures
        visit_post(*old(out), *final(out), *ctx),
        new_from(old(out).symbols@, final(out).symbols@, *node),
        ts_nested_held(ctx.source.spec_bytes(), final(out).symbols@, final(out).relations@, *node, str_views(scope@)),
    decreases *node,
{
    let ghost len = ctx.source.spec_bytes().len();
    let ghost src = ctx.source.spec_bytes();
    let ghost sv = str_views(scope@);
    let ghost start = out.symbols@;
    proof {
        lemma_all_children_spans_ok(*node, len);
    }
    let sibs = &node.children;
    let mut i: usize = 0;
    while i < sibs.len()
        invariant
            sibs == &node.children,
            i <= sibs@.len(),
            len == ctx.source.spec_bytes().len(),
            all_spans_ok(sibs@, len),
            ctx_ok(*out, *ctx),
            new_from(old(out).symbols@, out.symbols@, *node),
            rel_extends(old(out).relations@, out.relations@),
            extends(start, out.symbols@),
            start == old(out).symbols@,
            owner_ok(out.symbols@, parent_id),
            src == ctx.source.spec_bytes(),
            sv == str_views(scope@),
            ts_nested_held_upto(src, out.symbols@, out.relations@, *node, sv, i as int),
        decreases sibs@.len() - i,
    {
        let child = &sibs[i];
        let ghost before = out.symbols@;
        let ghost rbefore = out.relations@;
        proof {
            lemma_ts_kinds_distinct();
        }
        let k = child.kind.as_str();
        if str_eq(k, "function_declaration") {
            extract_function(ctx, sibs, i, scope, parent_id, false, out);

        } else if str_eq(k, "class_declaration") || str_eq(k, "abstract_class_declaration") {
            extract_class(ctx, sibs, i, scope, parent_id, out);

        } else if is_compound_kind(k) {
            extract_nested_recursive(ctx, child, scope, parent_id, out);
        }
        proof {
            lemma_extends_owner(before, out.symbols@, parent_id);
            lemma_new_from_child(old(out).symbols@, before, out.symbols@, *node, i as int);
            lemma_ts_nested_upto_extends(src, before, out.symbols@, rbefore, out.relations@, *node, sv, i as int);
        }
        i = i + 1;
    }
}

} // verus!
