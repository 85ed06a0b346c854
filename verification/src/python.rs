//! Symbols and relations of a Python source file: the module, classes,
//! functions and methods, module-level assignments, imports, base classes
//! and calls.
use vstd::prelude::*;
use vstd::string::StringSliceAdditionalSpecFns;
use crate::chunker::SyntaxNode;
use crate::qualified_name::{join_dotted, str_views};
use crate::resolver::phantom_id;
use crate::comments::{opt_string, spec_block_doc};
use crate::extract::{
    new_from, in_subtree, lemma_new_from_child, lemma_new_from_trans,
    rel_extends,
    child_by_field, ctx_ok, extend_scope, extends, first_child_of_kind, has_symbol_id, lemma_extends_owner, owner_ok, lemma_child_spans_ok,
    node_text, phantom_of, spans_ok, visit_post, visit_pre, ParseOutput, VisitorContext, field_or, field_after, opt_text, spec_field_text, pushed_relation, appended_to_phantoms, lemma_append_phantom, spec_first_kind_from, spec_node_text, spec_child_by_field, added_named, lemma_append_all, lemma_append_none, has_symbol, lemma_added_has, lemma_has_extends, has_relations_to, lemma_appended_has, lemma_relations_to_extends, symbol_is};
use crate::language::{str_eq, Language};
use crate::naming::{format_import_name, is_constant_name, spec_is_constant_name, python_module_name, qualified_name, spec_python_module_name};
use crate::relation::{CodeRelation, RelationKind};
use crate::symbol::{CodeSymbol, SymbolId, SymbolKind};
use crate::text::{chars_of, spec_trim, string_push_str, str_to_string, trim_chars};

verus! {

/// A Python docstring's quotes: triple double, triple single, double or
/// single, tried in that order.
pub open spec fn spec_strip_quotes(t: Seq<char>) -> Seq<char> {
    let n = t.len() as int;
    if n >= 6 && t[0] == '"' && t[1] == '"' && t[2] == '"' && t[n - 3] == '"' && t[n - 2] == '"' && t[n - 1] == '"' {
        t.subrange(3, n - 3)
    } else if n >= 6 && t[0] == '\'' && t[1] == '\'' && t[2] == '\'' && t[n - 3] == '\'' && t[n - 2] == '\''
        && t[n - 1] == '\'' {
        t.subrange(3, n - 3)
    } else if n >= 2 && t[0] == '"' && t[n - 1] == '"' {
        t.subrange(1, n - 1)
    } else if n >= 2 && t[0] == '\'' && t[n - 1] == '\'' {
        t.subrange(1, n - 1)
    } else {
        t
    }
}

/// The text of a docstring literal: its quotes stripped, then trimmed.
pub fn docstring_text(text: &str) -> (r: String)
    ensures
        r@ == spec_trim(spec_strip_quotes(text@)),
{
    let cs = chars_of(text);
    let n = cs.len();
    let (a, b) = if n >= 6 && cs[0] == '"' && cs[1] == '"' && cs[2] == '"' && cs[n - 3] == '"' && cs[n - 2] == '"'
        && cs[n - 1] == '"' {
        (3, n - 3)
    } else if n >= 6 && cs[0] == '\'' && cs[1] == '\'' && cs[2] == '\'' && cs[n - 3] == '\'' && cs[n - 2] == '\''
        && cs[n - 1] == '\'' {
        (3, n - 3)
    } else if n >= 2 && cs[0] == '"' && cs[n - 1] == '"' {
        (1, n - 1)
    } else if n >= 2 && cs[0] == '\'' && cs[n - 1] == '\'' {
        (1, n - 1)
    } else {
        (0, n)
    };
    let mut inner: Vec<char> = Vec::new();
    let mut k: usize = a;
    while k < b
        invariant
            a <= k <= b <= n,
            n == cs@.len(),
            inner@ == cs@.subrange(a as int, k as int),
        decreases b - k,
    {
        inner.push(cs[k]);
        assert(cs@.subrange(a as int, k + 1) =~= cs@.subrange(a as int, k as int).push(cs@[k as int]));
        k = k + 1;
    }
    assert(inner@ =~= spec_strip_quotes(text@));
    trim_chars(&inner)
}

/// A definition's docstring: its body's first statement, when that is an
/// expression statement whose first child is a string, unquoted and
/// trimmed.
pub open spec fn spec_docstring(src: Seq<u8>, node: SyntaxNode) -> Option<Seq<char>> {
    match spec_child_by_field(node, "body"@) {
        None => None,
        Some(bi) => {
            let body = node.children@[bi];
            if body.children@.len() == 0 {
                None
            } else {
                let first = body.children@[0];
                if first.kind@ != "expression_statement"@ || first.children@.len() == 0 {
                    None
                } else if first.children@[0].kind@ != "string"@ {
                    None
                } else {
                    Some(spec_trim(spec_strip_quotes(spec_node_text(src, first.children@[0]))))
                }
            }
        },
    }
}

/// The docstring of a class or function: the string that opens its body.
fn extract_docstring(ctx: &VisitorContext, node: &SyntaxNode) -> (r: Option<String>)
    requires
        spans_ok(*node, ctx.source.spec_bytes().len()),
    ensures
        opt_string(r) == spec_docstring(ctx.source.spec_bytes(), *node),
{
    let bi = match child_by_field(node, "body") {
        Some(b) => b,
        None => return None,
    };
    let body = &node.children[bi];
    if body.children.len() == 0 {
        return None;
    }
    let first_stmt = &body.children[0];
    if !str_eq(first_stmt.kind.as_str(), "expression_statement") || first_stmt.children.len() == 0 {
        return None;
    }
    let expr = &first_stmt.children[0];
    if !str_eq(expr.kind.as_str(), "string") {
        return None;
    }
    proof {
        let len = ctx.source.spec_bytes().len();
        lemma_child_spans_ok(*node, len, bi as int);
        lemma_child_spans_ok(*body, len, 0);
        lemma_child_spans_ok(*first_stmt, len, 0);
    }
    Some(docstring_text(node_text(ctx, expr)))
}

/// `def name(params) -> ret`, from the parameter and return type fields.
fn build_function_signature(ctx: &VisitorContext, node: &SyntaxNode, name: &str) -> (r: String)
    requires
        spans_ok(*node, ctx.source.spec_bytes().len()),
    ensures
        r@ == "def "@ + name@ + field_or(ctx.source.spec_bytes(), *node, "parameters"@, "()"@) + field_after(
            ctx.source.spec_bytes(),
            *node,
            "return_type"@,
            " -> "@,
        ),
{
    let len = Ghost(ctx.source.spec_bytes().len());
    let mut sig = str_to_string("def ");
    string_push_str(&mut sig, name);
    match child_by_field(node, "parameters") {
        Some(p) => {
            proof {
                lemma_child_spans_ok(*node, len@, p as int);
            }
            string_push_str(&mut sig, node_text(ctx, &node.children[p]));
        },
        None => string_push_str(&mut sig, "()"),
    }
    if let Some(rt) = child_by_field(node, "return_type") {
        proof {
            lemma_child_spans_ok(*node, len@, rt as int);
        }
        string_push_str(&mut sig, " -> ");
        string_push_str(&mut sig, node_text(ctx, &node.children[rt]));
    }
    sig
}

/// `class Name(Bases)`, or `class Name` without superclasses.
fn build_class_signature(ctx: &VisitorContext, node: &SyntaxNode, name: &str) -> (r: String)
    requires
        spans_ok(*node, ctx.source.spec_bytes().len()),
    ensures
        r@ == "class "@ + name@ + field_or(ctx.source.spec_bytes(), *node, "superclasses"@, Seq::empty()),
{
    let mut sig = str_to_string("class ");
    string_push_str(&mut sig, name);
    if let Some(b) = child_by_field(node, "superclasses") {
        proof {
            lemma_child_spans_ok(*node, ctx.source.spec_bytes().len(), b as int);
        }
        string_push_str(&mut sig, node_text(ctx, &node.children[b]));
    }
    sig
}

/// Extract the symbols and relations of a Python file from its syntax tree.
/// The first symbol is the module, spanning the whole tree.
pub fn extract(ctx: &VisitorContext, root: &SyntaxNode) -> (out: ParseOutput)
    requires
        spans_ok(*root, ctx.source.spec_bytes().len()),
        ctx.language == Language::Python,
    ensures
        ctx_ok(out, *ctx),
        new_from(Seq::empty(), out.symbols@, *root),
        out.symbols@.len() >= 1,
        out.symbols@[0].name@ == spec_python_module_name(ctx.file_path@),
        out.symbols@[0].qualified_name@ == spec_python_module_name(ctx.file_path@),
        out.symbols@[0].kind == SymbolKind::Module,
        out.symbols@[0].byte_range.start == root.start_byte,
        out.symbols@[0].byte_range.end == root.end_byte,
        forall|i: int|
            0 <= i < root.children@.len() ==> py_stmt_deep(
                ctx.source.spec_bytes(),
                out.symbols@,
                out.relations@,
                #[trigger] root.children@[i],
                seq![spec_python_module_name(ctx.file_path@)],
                false,
                out.symbols@[0].id,
            ),
{
    let mut out = ParseOutput::new();
    let module_name = python_module_name(ctx.file_path);
    let module_qname = module_name.clone();
    let module_id = out.add_symbol(ctx, root, module_name.as_str(), module_qname, SymbolKind::Module, None, None);
    let ghost first = out.symbols@[0];
    let scope = vec![module_name.as_str()];
    assert(str_views(scope@) =~= seq![spec_python_module_name(ctx.file_path@)]);
    assert(module_id == first.id);
    let ghost added = out.symbols@;
    assert(new_from(Seq::empty(), added, *root));
    extract_children(ctx, root, scope.as_slice(), module_id, false, &mut out);
    proof {
        lemma_new_from_trans(Seq::empty(), added, out.symbols@, *root);
    }
    assert(out.symbols@[0] == first);
    out
}

/// The symbol an assignment makes, when its target is a non-empty
/// identifier: the name and its kind.
pub open spec fn py_assign_symbol(src: Seq<u8>, node: SyntaxNode) -> Option<(Seq<char>, SymbolKind)> {
    match spec_child_by_field(node, "left"@) {
        Some(l) => if node.children@[l].kind@ == "identifier"@ && spec_node_text(src, node.children@[l]).len() > 0 {
            let n = spec_node_text(src, node.children@[l]);
            Some((n, if spec_is_constant_name(n) { SymbolKind::Constant } else { SymbolKind::Variable }))
        } else {
            None
        },
        None => None,
    }
}

/// The symbol a definition makes, when it is a class with a name or a
/// function with a non-empty name: the name, its kind and the node.
pub open spec fn py_def_symbol(src: Seq<u8>, d: SyntaxNode, in_class: bool) -> Option<(Seq<char>, SymbolKind, SyntaxNode)> {
    if d.kind@ == "class_definition"@ {
        match spec_field_text(src, d, "name"@) {
            Some(n) => Some((n, SymbolKind::Class, d)),
            None => None,
        }
    } else if d.kind@ == "function_definition"@ {
        match spec_field_text(src, d, "name"@) {
            Some(n) => if n.len() > 0 {
                Some((n, if in_class { SymbolKind::Method } else { SymbolKind::Function }, d))
            } else {
                None
            },
            None => None,
        }
    } else {
        None
    }
}

/// The symbol a statement of a module or class body makes for itself:
/// a class, a function (decorated or not) or an assigned name.
pub open spec fn py_child_symbol(src: Seq<u8>, c: SyntaxNode, in_class: bool) -> Option<(Seq<char>, SymbolKind, SyntaxNode)> {
    if c.kind@ == "class_definition"@ || c.kind@ == "function_definition"@ {
        py_def_symbol(src, c, in_class)
    } else if c.kind@ == "decorated_definition"@ {
        match spec_child_by_field(c, "definition"@) {
            Some(d) => py_def_symbol(src, c.children@[d], in_class),
            None => None,
        }
    } else if c.kind@ == "expression_statement"@ {
        match spec_first_kind_from(c.children@, "assignment"@, 0) {
            Some(a) => match py_assign_symbol(src, c.children@[a]) {
                Some(t) => Some((t.0, t.1, c.children@[a])),
                None => None,
            },
            None => None,
        }
    } else if c.kind@ == "assignment"@ {
        match py_assign_symbol(src, c) {
            Some(t) => Some((t.0, t.1, c)),
            None => None,
        }
    } else {
        None
    }
}

/// `syms` holds the symbol the statement `c` makes for itself, if any,
/// qualified within `scope`.
pub open spec fn py_child_held(src: Seq<u8>, syms: Seq<CodeSymbol>, c: SyntaxNode, scope: Seq<Seq<char>>, in_class: bool) -> bool {
    match py_child_symbol(src, c, in_class) {
        Some(t) => has_symbol(syms, t.0, join_dotted(scope.push(t.0)), t.1, t.2),
        None => true,
    }
}

/// The statement kinds a Python visitor tells apart are distinct.
pub proof fn lemma_py_kinds_distinct()
    ensures
        "class_definition"@ != "function_definition"@,
        "class_definition"@ != "decorated_definition"@,
        "class_definition"@ != "expression_statement"@,
        "class_definition"@ != "assignment"@,
        "class_definition"@ != "import_statement"@,
        "class_definition"@ != "import_from_statement"@,
        "function_definition"@ != "decorated_definition"@,
        "function_definition"@ != "expression_statement"@,
        "function_definition"@ != "assignment"@,
        "function_definition"@ != "import_statement"@,
        "function_definition"@ != "import_from_statement"@,
        "decorated_definition"@ != "expression_statement"@,
        "decorated_definition"@ != "assignment"@,
        "decorated_definition"@ != "import_statement"@,
        "decorated_definition"@ != "import_from_statement"@,
        "expression_statement"@ != "assignment"@,
        "expression_statement"@ != "import_statement"@,
        "expression_statement"@ != "import_from_statement"@,
        "assignment"@ != "import_statement"@,
        "assignment"@ != "import_from_statement"@,
        "import_statement"@ != "import_from_statement"@,
{
    reveal_strlit("class_definition");
    reveal_strlit("function_definition");
    reveal_strlit("decorated_definition");
    reveal_strlit("expression_statement");
    reveal_strlit("assignment");
    reveal_strlit("import_statement");
    reveal_strlit("import_from_statement");
    assert("class_definition"@.len() != "function_definition"@.len());
    assert("class_definition"@.len() != "decorated_definition"@.len());
    assert("class_definition"@.len() != "expression_statement"@.len());
    assert("class_definition"@.len() != "assignment"@.len());
    assert("class_definition"@[0] != "import_statement"@[0]);
    assert("class_definition"@.len() != "import_from_statement"@.len());
    assert("function_definition"@.len() != "decorated_definition"@.len());
    assert("function_definition"@.len() != "expression_statement"@.len());
    assert("function_definition"@.len() != "assignment"@.len());
    assert("function_definition"@.len() != "import_statement"@.len());
    assert("function_definition"@.len() != "import_from_statement"@.len());
    assert("decorated_definition"@[0] != "expression_statement"@[0]);
    assert("decorated_definition"@.len() != "assignment"@.len());
    assert("decorated_definition"@.len() != "import_statement"@.len());
    assert("decorated_definition"@.len() != "import_from_statement"@.len());
    assert("expression_statement"@.len() != "assignment"@.len());
    assert("expression_statement"@.len() != "import_statement"@.len());
    assert("expression_statement"@.len() != "import_from_statement"@.len());
    assert("assignment"@.len() != "import_statement"@.len());
    assert("assignment"@.len() != "import_from_statement"@.len());
    assert("import_statement"@.len() != "import_from_statement"@.len());
}

/// `syms` holds the symbol a definition makes, if any, and `rels` and
/// `syms` what comes with it (`py_def_body`, under the symbol's ID).
pub open spec fn py_def_deep(
    src: Seq<u8>,
    syms: Seq<CodeSymbol>,
    rels: Seq<CodeRelation>,
    d: SyntaxNode,
    scope: Seq<Seq<char>>,
    in_class: bool,
) -> bool
    decreases d, 1int,
{
    match py_def_symbol(src, d, in_class) {
        Some(t) => exists|k: int|
            0 <= k < syms.len() && symbol_is(#[trigger] syms[k], t.0, join_dotted(scope.push(t.0)), t.1, d) && py_def_body(
                src,
                syms,
                rels,
                d,
                scope.push(t.0),
                syms[k].id,
            ),
        None => true,
    }
}

/// What comes with the symbol `id` of a definition, scoped in `inner`: for
/// a class, an inheritance of each base class and what its body declares
/// with it as owner; for a function, a call of each callee in its body and
/// the definitions nested there.
pub open spec fn py_def_body(
    src: Seq<u8>,
    syms: Seq<CodeSymbol>,
    rels: Seq<CodeRelation>,
    d: SyntaxNode,
    inner: Seq<Seq<char>>,
    id: SymbolId,
) -> bool
    decreases d, 0int,
{
    if d.kind@ == "class_definition"@ {
        &&& (spec_child_by_field(d, "superclasses"@) matches Some(a) ==> (0 <= a < d.children@.len() ==> has_relations_to(
            rels,
            id,
            RelationKind::Inherits,
            base_names(src, d.children@[a].children@, d.children@[a].children@.len() as int),
        )))
        &&& (spec_child_by_field(d, "body"@) matches Some(b) ==> (0 <= b < d.children@.len() ==> py_body_deep(
            src,
            syms,
            rels,
            d.children@[b],
            inner,
            id,
        )))
    } else {
        spec_child_by_field(d, "body"@) matches Some(b) ==> (0 <= b < d.children@.len() ==> {
            &&& has_relations_to(rels, id, RelationKind::Calls, py_calls_names(src, d.children@[b]))
            &&& py_nested_held(src, syms, rels, d.children@[b], inner)
        })
    }
}

/// What a class or function definition, decorated or not, declares.
pub open spec fn py_def_stmt(
    src: Seq<u8>,
    syms: Seq<CodeSymbol>,
    rels: Seq<CodeRelation>,
    c: SyntaxNode,
    scope: Seq<Seq<char>>,
    in_class: bool,
) -> bool
    decreases c, 2int,
{
    if c.kind@ == "class_definition"@ || c.kind@ == "function_definition"@ {
        py_def_deep(src, syms, rels, c, scope, in_class)
    } else if c.kind@ == "decorated_definition"@ {
        match spec_child_by_field(c, "definition"@) {
            Some(d) => if 0 <= d < c.children@.len() { py_def_deep(src, syms, rels, c.children@[d], scope, in_class) } else { true },
            None => true,
        }
    } else {
        true
    }
}

/// `syms` and `rels` hold what a statement of a module or class body
/// declares: definitions with their members, relations and nested
/// definitions; an import of each imported name from `owner`; an assigned
/// name.
pub open spec fn py_stmt_deep(
    src: Seq<u8>,
    syms: Seq<CodeSymbol>,
    rels: Seq<CodeRelation>,
    c: SyntaxNode,
    scope: Seq<Seq<char>>,
    in_class: bool,
    owner: SymbolId,
) -> bool
    decreases c, 3int,
{
    if c.kind@ == "class_definition"@ || c.kind@ == "function_definition"@ || c.kind@ == "decorated_definition"@ {
        py_def_stmt(src, syms, rels, c, scope, in_class)
    } else if c.kind@ == "import_statement"@ || c.kind@ == "import_from_statement"@ {
        has_relations_to(rels, owner, RelationKind::Imports, py_import_names(src, c))
    } else {
        py_child_held(src, syms, c, scope, in_class)
    }
}

/// What each statement of a class body declares, with the class as owner.
pub open spec fn py_body_deep(
    src: Seq<u8>,
    syms: Seq<CodeSymbol>,
    rels: Seq<CodeRelation>,
    body: SyntaxNode,
    scope: Seq<Seq<char>>,
    owner: SymbolId,
) -> bool
    decreases body, 4int,
{
    forall|j: int| 0 <= j < body.children@.len() ==> py_stmt_deep(src, syms, rels, #[trigger] body.children@[j], scope, true, owner)
}

/// What a definition declares stays held as the lists grow.
pub proof fn lemma_py_def_deep_extends(
    src: Seq<u8>,
    a: Seq<CodeSymbol>,
    b: Seq<CodeSymbol>,
    ra: Seq<CodeRelation>,
    rb: Seq<CodeRelation>,
    d: SyntaxNode,
    scope: Seq<Seq<char>>,
    in_class: bool,
)
    requires
        extends(a, b),
        rel_extends(ra, rb),
        py_def_deep(src, a, ra, d, scope, in_class),
    ensures
        py_def_deep(src, b, rb, d, scope, in_class),
    decreases d, 1int,
{
    match py_def_symbol(src, d, in_class) {
        Some(t) => {
            let k = choose|k: int|
                0 <= k < a.len() && symbol_is(#[trigger] a[k], t.0, join_dotted(scope.push(t.0)), t.1, d) && py_def_body(
                    src,
                    a,
                    ra,
                    d,
                    scope.push(t.0),
                    a[k].id,
                );
            assert(b[k] == a[k]);
            lemma_py_def_body_extends(src, a, b, ra, rb, d, scope.push(t.0), a[k].id);
        },
        None => {},
    }
}

/// What comes with a definition's symbol stays held as the lists grow.
pub proof fn lemma_py_def_body_extends(
    src: Seq<u8>,
    a: Seq<CodeSymbol>,
    b: Seq<CodeSymbol>,
    ra: Seq<CodeRelation>,
    rb: Seq<CodeRelation>,
    d: SyntaxNode,
    inner: Seq<Seq<char>>,
    id: SymbolId,
)
    requires
        extends(a, b),
        rel_extends(ra, rb),
        py_def_body(src, a, ra, d, inner, id),
    ensures
        py_def_body(src, b, rb, d, inner, id),
    decreases d, 0int,
{
    if d.kind@ == "class_definition"@ {
        match spec_child_by_field(d, "superclasses"@) {
            Some(x) => if 0 <= x < d.children@.len() {
                lemma_relations_to_extends(ra, rb, id, RelationKind::Inherits, base_names(src, d.children@[x].children@, d.children@[x].children@.len() as int));
            },
            None => {},
        }
        match spec_child_by_field(d, "body"@) {
            Some(x) => if 0 <= x < d.children@.len() {
                lemma_py_body_deep_extends(src, a, b, ra, rb, d.children@[x], inner, id);
            },
            None => {},
        }
    } else {
        match spec_child_by_field(d, "body"@) {
            Some(x) => if 0 <= x < d.children@.len() {
                lemma_relations_to_extends(ra, rb, id, RelationKind::Calls, py_calls_names(src, d.children@[x]));
                lemma_py_nested_extends(src, a, b, ra, rb, d.children@[x], inner);
            },
            None => {},
        }
    }
}

/// What a definition statement declares stays held as the lists grow.
pub proof fn lemma_py_def_stmt_extends(
    src: Seq<u8>,
    a: Seq<CodeSymbol>,
    b: Seq<CodeSymbol>,
    ra: Seq<CodeRelation>,
    rb: Seq<CodeRelation>,
    c: SyntaxNode,
    scope: Seq<Seq<char>>,
    in_class: bool,
)
    requires
        extends(a, b),
        rel_extends(ra, rb),
        py_def_stmt(src, a, ra, c, scope, in_class),
    ensures
        py_def_stmt(src, b, rb, c, scope, in_class),
    decreases c, 2int,
{
    if c.kind@ == "class_definition"@ || c.kind@ == "function_definition"@ {
        lemma_py_def_deep_extends(src, a, b, ra, rb, c, scope, in_class);
    } else if c.kind@ == "decorated_definition"@ {
        match spec_child_by_field(c, "definition"@) {
            Some(d) => if 0 <= d < c.children@.len() {
                lemma_py_def_deep_extends(src, a, b, ra, rb, c.children@[d], scope, in_class);
            },
            None => {},
        }
    }
}

/// What a statement declares stays held as the lists grow.
pub proof fn lemma_py_stmt_deep_extends(
    src: Seq<u8>,
    a: Seq<CodeSymbol>,
    b: Seq<CodeSymbol>,
    ra: Seq<CodeRelation>,
    rb: Seq<CodeRelation>,
    c: SyntaxNode,
    scope: Seq<Seq<char>>,
    in_class: bool,
    owner: SymbolId,
)
    requires
        extends(a, b),
        rel_extends(ra, rb),
        py_stmt_deep(src, a, ra, c, scope, in_class, owner),
    ensures
        py_stmt_deep(src, b, rb, c, scope, in_class, owner),
    decreases c, 3int,
{
    if c.kind@ == "class_definition"@ || c.kind@ == "function_definition"@ || c.kind@ == "decorated_definition"@ {
        lemma_py_def_stmt_extends(src, a, b, ra, rb, c, scope, in_class);
    } else if c.kind@ == "import_statement"@ || c.kind@ == "import_from_statement"@ {
        lemma_relations_to_extends(ra, rb, owner, RelationKind::Imports, py_import_names(src, c));
    } else {
        match py_child_symbol(src, c, in_class) {
            Some(t) => lemma_has_extends(a, b, t.0, join_dotted(scope.push(t.0)), t.1, t.2),
            None => {},
        }
    }
}

/// What a class body declares stays held as the lists grow.
pub proof fn lemma_py_body_deep_extends(
    src: Seq<u8>,
    a: Seq<CodeSymbol>,
    b: Seq<CodeSymbol>,
    ra: Seq<CodeRelation>,
    rb: Seq<CodeRelation>,
    body: SyntaxNode,
    scope: Seq<Seq<char>>,
    owner: SymbolId,
)
    requires
        extends(a, b),
        rel_extends(ra, rb),
        py_body_deep(src, a, ra, body, scope, owner),
    ensures
        py_body_deep(src, b, rb, body, scope, owner),
    decreases body, 4int,
{
    assert forall|j: int| 0 <= j < body.children@.len() implies py_stmt_deep(src, b, rb, #[trigger] body.children@[j], scope, true, owner) by {
        lemma_py_stmt_deep_extends(src, a, b, ra, rb, body.children@[j], scope, true, owner);
    }
}

/// Visit the statements of a module or class body.
fn extract_children<'a, 's>(
    ctx: &VisitorContext<'a>,
    parent: &SyntaxNode,
    scope: &[&'s str],
    scope_id: SymbolId,
    in_class: bool,
    out: &mut ParseOutput,
) where 'a: 's
    requires
        visit_pre(*old(out), *ctx, *parent, scope_id),
    ensures
        visit_post(*old(out), *final(out), *ctx),
        new_from(old(out).symbols@, final(out).symbols@, *parent),
        forall|i: int|
            0 <= i < parent.children@.len() ==> py_stmt_deep(
                ctx.source.spec_bytes(),
                final(out).symbols@,
                final(out).relations@,
                #[trigger] parent.children@[i],
                str_views(scope@),
                in_class,
                scope_id,
            ),
    decreases *parent,
{
    let ghost len = ctx.source.spec_bytes().len();
    let ghost src = ctx.source.spec_bytes();
    let ghost sv = str_views(scope@);
    let ghost start = out.symbols@;
    let mut i: usize = 0;
    while i < parent.children.len()
        invariant
            i <= parent.children@.len(),
            len == ctx.source.spec_bytes().len(),
            src == ctx.source.spec_bytes(),
            sv == str_views(scope@),
            spans_ok(*parent, len),
            ctx_ok(*out, *ctx),
            new_from(old(out).symbols@, out.symbols@, *parent),
            rel_extends(old(out).relations@, out.relations@),
            extends(start, out.symbols@),
            start == old(out).symbols@,
            owner_ok(out.symbols@, scope_id),
            forall|j: int|
                0 <= j < i ==> py_stmt_deep(src, out.symbols@, out.relations@, #[trigger] parent.children@[j], sv, in_class, scope_id),
        decreases parent.children@.len() - i,
    {
        let child = &parent.children[i];
        proof {
            lemma_child_spans_ok(*parent, len, i as int);
        }
        let ghost before = out.symbols@;
        let ghost rbefore = out.relations@;
        proof {
            lemma_py_kinds_distinct();
        }
        let k = child.kind.as_str();
        if str_eq(k, "class_definition") {
            extract_class(ctx, child, scope, scope_id, out);
        } else if str_eq(k, "function_definition") {
            extract_function(ctx, child, scope, scope_id, in_class, out);
        } else if str_eq(k, "decorated_definition") {
            extract_decorated(ctx, child, scope, scope_id, in_class, out);
        } else if str_eq(k, "import_statement") || str_eq(k, "import_from_statement") {
            extract_import(ctx, child, scope_id, out);
            proof {
                lemma_appended_has(rbefore, out.relations@, scope_id, RelationKind::Imports, py_import_names(src, *child));
            }
        } else if str_eq(k, "expression_statement") {
            if let Some(a) = first_child_of_kind(child, "assignment") {
                proof {
                    lemma_child_spans_ok(*child, len, a as int);
                }
                extract_assignment(ctx, &child.children[a], scope, scope_id, out);
                proof {
                    lemma_new_from_child(before, before, out.symbols@, *child, a as int);
                    match py_child_symbol(src, *child, in_class) {
                        Some(t) => lemma_added_has(before, out.symbols@, t.0, sv, t.1, t.2),
                        None => {},
                    }
                }
            }
        } else if str_eq(k, "assignment") {
            extract_assignment(ctx, child, scope, scope_id, out);
            proof {
                match py_child_symbol(src, *child, in_class) {
                    Some(t) => lemma_added_has(before, out.symbols@, t.0, sv, t.1, t.2),
                    None => {},
                }
            }
        }
        proof {
            lemma_extends_owner(before, out.symbols@, scope_id);
            lemma_new_from_child(old(out).symbols@, before, out.symbols@, *parent, i as int);
            assert(py_stmt_deep(src, out.symbols@, out.relations@, *child, sv, in_class, scope_id));
            assert forall|j: int| 0 <= j < i + 1 implies py_stmt_deep(
                src,
                out.symbols@,
                out.relations@,
                #[trigger] parent.children@[j],
                sv,
                in_class,
                scope_id,
            ) by {
                if j < i {
                    lemma_py_stmt_deep_extends(src, before, out.symbols@, rbefore, out.relations@, parent.children@[j], sv, in_class, scope_id);
                }
            }
        }
        i = i + 1;
    }
}

/// A class: its symbol, its containment in the scope, its base classes and
/// its body.
fn extract_class<'a, 's>(
    ctx: &VisitorContext<'a>,
    node: &SyntaxNode,
    scope: &[&'s str],
    scope_id: SymbolId,
    out: &mut ParseOutput,
) where 'a: 's
    requires
        visit_pre(*old(out), *ctx, *node, scope_id),
    ensures
        visit_post(*old(out), *final(out), *ctx),
        new_from(old(out).symbols@, final(out).symbols@, *node),
        spec_field_text(ctx.source.spec_bytes(), *node, "name"@) is None ==> *final(out) == *old(out),
        spec_field_text(ctx.source.spec_bytes(), *node, "name"@) matches Some(n) ==> {
            &&& added_named(old(out).symbols@, final(out).symbols@, n, str_views(scope@), SymbolKind::Class, *node)
            &&& final(out).symbols@[old(out).symbols@.len() as int].signature matches Some(sg) && sg@ == "class "@ + n + field_or(
                ctx.source.spec_bytes(),
                *node,
                "superclasses"@,
                Seq::empty(),
            )
            &&& opt_string(final(out).symbols@[old(out).symbols@.len() as int].doc_comment) == spec_docstring(ctx.source.spec_bytes(), *node)
        },
        node.kind@ == "class_definition"@ ==> py_def_deep(
            ctx.source.spec_bytes(),
            final(out).symbols@,
            final(out).relations@,
            *node,
            str_views(scope@),
            false,
        ),
    decreases *node,
{
    let ghost len = ctx.source.spec_bytes().len();
    let ghost src = ctx.source.spec_bytes();
    let ghost sv = str_views(scope@);
    let name = match child_by_field(node, "name") {
        Some(n) => {
            proof {
                lemma_child_spans_ok(*node, len, n as int);
            }
            node_text(ctx, &node.children[n])
        },
        None => return,
    };
    let qname = qualified_name(scope, name);
    let signature = build_class_signature(ctx, node, name);
    let doc = extract_docstring(ctx, node);
    let ghost before = out.symbols@;
    let sym_id = out.add_contained(ctx, node, name, qname, SymbolKind::Class, Some(signature), doc, scope_id, node.start_row);
    let ghost k = before.len() as int;
    let ghost inner = sv.push(name@);
    assert(out.symbols@[k].id == sym_id);
    let ghost r0 = out.relations@;
    if let Some(args) = child_by_field(node, "superclasses") {
        proof {
            lemma_child_spans_ok(*node, len, args as int);
        }
        extract_base_classes(ctx, &node.children[args], sym_id, out);
        proof {
            lemma_appended_has(r0, out.relations@, sym_id, RelationKind::Inherits, base_names(src, node.children@[args as int].children@, node.children@[args as int].children@.len() as int));
        }
    }
    let ghost s1 = out.symbols@;
    let ghost r1 = out.relations@;
    if let Some(body) = child_by_field(node, "body") {
        proof {
            lemma_child_spans_ok(*node, len, body as int);
        }
        let new_scope = extend_scope(scope, name);
        assert(str_views(new_scope@) =~= inner);
        extract_children(ctx, &node.children[body], new_scope.as_slice(), sym_id, true, out);
        proof {
            match spec_child_by_field(*node, "superclasses"@) {
                Some(x) => lemma_relations_to_extends(r1, out.relations@, sym_id, RelationKind::Inherits, base_names(src, node.children@[x].children@, node.children@[x].children@.len() as int)),
                None => {},
            }
        }
    }
    proof {
        assert(out.symbols@[k] == s1[k]);
        if node.kind@ == "class_definition"@ {
            assert(py_def_body(src, out.symbols@, out.relations@, *node, inner, out.symbols@[k].id));
        }
    }
}

/// A function or method: its symbol, its containment in the scope, the calls
/// in its body and the definitions nested in it.
fn extract_function<'a, 's>(
    ctx: &VisitorContext<'a>,
    node: &SyntaxNode,
    scope: &[&'s str],
    scope_id: SymbolId,
    in_class: bool,
    out: &mut ParseOutput,
) where 'a: 's
    requires
        visit_pre(*old(out), *ctx, *node, scope_id),
    ensures
        visit_post(*old(out), *final(out), *ctx),
        new_from(old(out).symbols@, final(out).symbols@, *node),
        !(spec_field_text(ctx.source.spec_bytes(), *node, "name"@) matches Some(n) && n.len() > 0) ==> *final(out) == *old(out),
        spec_field_text(ctx.source.spec_bytes(), *node, "name"@) matches Some(n) ==> n.len() > 0 ==> {
            &&& added_named(
                old(out).symbols@,
                final(out).symbols@,
                n,
                str_views(scope@),
                if in_class { SymbolKind::Method } else { SymbolKind::Function },
                *node,
            )
            &&& final(out).symbols@[old(out).symbols@.len() as int].signature matches Some(sg) && sg@ == "def "@ + n + field_or(
                ctx.source.spec_bytes(),
                *node,
                "parameters"@,
                "()"@,
            ) + field_after(ctx.source.spec_bytes(), *node, "return_type"@, " -> "@)
            &&& opt_string(final(out).symbols@[old(out).symbols@.len() as int].doc_comment) == spec_docstring(ctx.source.spec_bytes(), *node)
        },
        node.kind@ == "function_definition"@ ==> py_def_deep(
            ctx.source.spec_bytes(),
            final(out).symbols@,
            final(out).relations@,
            *node,
            str_views(scope@),
            in_class,
        ),
    decreases *node,
{
    proof {
        lemma_py_kinds_distinct();
    }
    let ghost len = ctx.source.spec_bytes().len();
    let ghost src = ctx.source.spec_bytes();
    let ghost sv = str_views(scope@);
    let name = match child_by_field(node, "name") {
        Some(n) => {
            proof {
                lemma_child_spans_ok(*node, len, n as int);
            }
            node_text(ctx, &node.children[n])
        },
        None => return,
    };
    if name.unicode_len() == 0 {
        return;
    }
    let kind = if in_class {
        SymbolKind::Method
    } else {
        SymbolKind::Function
    };
    let qname = qualified_name(scope, name);
    let signature = build_function_signature(ctx, node, name);
    let doc = extract_docstring(ctx, node);
    let ghost before = out.symbols@;
    let sym_id = out.add_contained(ctx, node, name, qname, kind, Some(signature), doc, scope_id, node.start_row);
    let ghost k = before.len() as int;
    let ghost inner = sv.push(name@);
    assert(out.symbols@[k].id == sym_id);
    let ghost s0 = out.symbols@;
    if let Some(body) = child_by_field(node, "body") {
        proof {
            lemma_child_spans_ok(*node, len, body as int);
        }
        let body_node = &node.children[body];
        let ghost mid = out.symbols@;
        let ghost r0 = out.relations@;
        traverse_for_calls(ctx, body_node, sym_id, out);
        proof {
            lemma_extends_owner(mid, out.symbols@, sym_id);
            lemma_appended_has(r0, out.relations@, sym_id, RelationKind::Calls, py_calls_names(src, *body_node));
        }
        let ghost r1 = out.relations@;
        let new_scope = extend_scope(scope, name);
        assert(str_views(new_scope@) =~= inner);
        extract_nested_recursive(ctx, body_node, new_scope.as_slice(), sym_id, out);
        proof {
            lemma_relations_to_extends(r1, out.relations@, sym_id, RelationKind::Calls, py_calls_names(src, *body_node));
        }
    }
    proof {
        assert(out.symbols@[k] == s0[k]);
        if node.kind@ == "function_definition"@ {
            assert(py_def_body(src, out.symbols@, out.relations@, *node, inner, out.symbols@[k].id));
        }
    }
}

/// A decorated class or function.
fn extract_decorated<'a, 's>(
    ctx: &VisitorContext<'a>,
    node: &SyntaxNode,
    scope: &[&'s str],
    scope_id: SymbolId,
    in_class: bool,
    out: &mut ParseOutput,
) where 'a: 's
    requires
        visit_pre(*old(out), *ctx, *node, scope_id),
    ensures
        visit_post(*old(out), *final(out), *ctx),
        new_from(old(out).symbols@, final(out).symbols@, *node),
        spec_child_by_field(*node, "definition"@) is None ==> *final(out) == *old(out),
        spec_child_by_field(*node, "definition"@) matches Some(d) ==> (node.children@[d].kind@ == "class_definition"@
            && spec_field_text(ctx.source.spec_bytes(), node.children@[d], "name"@) is Some) ==> added_named(
            old(out).symbols@,
            final(out).symbols@,
            spec_field_text(ctx.source.spec_bytes(), node.children@[d], "name"@)->0,
            str_views(scope@),
            SymbolKind::Class,
            node.children@[d],
        ),
        spec_child_by_field(*node, "definition"@) matches Some(d) ==> (node.children@[d].kind@ == "function_definition"@
            && spec_field_text(ctx.source.spec_bytes(), node.children@[d], "name"@) is Some && spec_field_text(ctx.source.spec_bytes(), node.children@[d], "name"@)->0.len() > 0) ==> added_named(
            old(out).symbols@,
            final(out).symbols@,
            spec_field_text(ctx.source.spec_bytes(), node.children@[d], "name"@)->0,
            str_views(scope@),
            if in_class { SymbolKind::Method } else { SymbolKind::Function },
            node.children@[d],
        ),
        spec_child_by_field(*node, "definition"@) matches Some(d) ==> (node.children@[d].kind@ != "class_definition"@
            && node.children@[d].kind@ != "function_definition"@) ==> *final(out) == *old(out),
        spec_child_by_field(*node, "definition"@) matches Some(d) ==> py_def_deep(
            ctx.source.spec_bytes(),
            final(out).symbols@,
            final(out).relations@,
            node.children@[d],
            str_views(scope@),
            in_class,
        ),
    decreases *node,
{
    proof {
        reveal_strlit("class_definition");
        reveal_strlit("function_definition");
        assert("class_definition"@ != "function_definition"@) by {
            assert("class_definition"@.len() != "function_definition"@.len());
        }
    }
    if let Some(d) = child_by_field(node, "definition") {
        proof {
            lemma_child_spans_ok(*node, ctx.source.spec_bytes().len(), d as int);
        }
        let definition = &node.children[d];
        let ghost nm = spec_field_text(ctx.source.spec_bytes(), *definition, "name"@);
        if str_eq(definition.kind.as_str(), "class_definition") {
            extract_class(ctx, definition, scope, scope_id, out);
            assert(nm is Some ==> added_named(old(out).symbols@, out.symbols@, nm->0, str_views(scope@), SymbolKind::Class, *definition));
        } else if str_eq(definition.kind.as_str(), "function_definition") {
            extract_function(ctx, definition, scope, scope_id, in_class, out);
            assert(nm is Some && nm->0.len() > 0 ==> added_named(
                old(out).symbols@,
                out.symbols@,
                nm->0,
                str_views(scope@),
                if in_class { SymbolKind::Method } else { SymbolKind::Function },
                *definition,
            ));
        }
    }
}

/// An assignment to a plain name: a variable, or a constant when the name is
/// upper case.
fn extract_assignment<'a, 's>(
    ctx: &VisitorContext<'a>,
    node: &SyntaxNode,
    scope: &[&'s str],
    scope_id: SymbolId,
    out: &mut ParseOutput,
) where 'a: 's
    requires
        visit_pre(*old(out), *ctx, *node, scope_id),
    ensures
        visit_post(*old(out), *final(out), *ctx),
        new_from(old(out).symbols@, final(out).symbols@, *node),
        (spec_child_by_field(*node, "left"@) matches Some(l) && node.children@[l].kind@ == "identifier"@ && spec_node_text(
            ctx.source.spec_bytes(),
            node.children@[l],
        ).len() > 0) ==> {
            let n = spec_node_text(ctx.source.spec_bytes(), node.children@[spec_child_by_field(*node, "left"@)->0]);
            &&& final(out).symbols@.len() == old(out).symbols@.len() + 1
            &&& added_named(
                old(out).symbols@,
                final(out).symbols@,
                n,
                str_views(scope@),
                if spec_is_constant_name(n) { SymbolKind::Constant } else { SymbolKind::Variable },
                *node,
            )
            &&& final(out).symbols@.last().signature is None
        },
        !(spec_child_by_field(*node, "left"@) matches Some(l) && node.children@[l].kind@ == "identifier"@ && spec_node_text(
            ctx.source.spec_bytes(),
            node.children@[l],
        ).len() > 0) ==> *final(out) == *old(out),
{
    let lhs_i = match child_by_field(node, "left") {
        Some(l) => l,
        None => return,
    };
    let lhs = &node.children[lhs_i];
    if !str_eq(lhs.kind.as_str(), "identifier") {
        return;
    }
    proof {
        lemma_child_spans_ok(*node, ctx.source.spec_bytes().len(), lhs_i as int);
    }
    let name = node_text(ctx, lhs);
    if name.unicode_len() == 0 {
        return;
    }
    let kind = if is_constant_name(name) {
        SymbolKind::Constant
    } else {
        SymbolKind::Variable
    };
    let qname = qualified_name(scope, name);
    let sym_id = out.add_contained(ctx, node, name, qname, kind, None, None, scope_id, node.start_row);
}

/// An import relation from the scope to the module or name imported.
fn push_import(ctx: &VisitorContext, scope_id: SymbolId, target_name: &str, line: usize, out: &mut ParseOutput)
    requires
        ctx_ok(*old(out), *ctx),
        owner_ok(old(out).symbols@, scope_id),
    ensures
        visit_post(*old(out), *final(out), *ctx),
        final(out).symbols@ == old(out).symbols@,
        pushed_relation(
            old(out).relations@,
            final(out).relations@,
            scope_id,
            SymbolId(phantom_id(target_name@)),
            RelationKind::Imports,
        ),
{
    let target_id = phantom_of(target_name);
    out.add_relation(ctx, scope_id, target_id, RelationKind::Imports, line);
    assert(out.relations@.drop_last() =~= old(out).relations@);
}

/// An imported name under module `m`: `m.t`, or `t` when `m` is empty.
pub open spec fn import_under(m: Seq<char>, t: Seq<char>) -> Seq<char> {
    if m.len() == 0 { t } else { m + seq!['.'] + t }
}

/// The names one child of an import statement imports: in `import`, a
/// dotted name or an alias's name; in `from m import`, a dotted name other
/// than `m` or a non-empty alias's name under `m`, or `m` itself for a
/// wildcard.
pub open spec fn py_import_here(src: Seq<u8>, c: SyntaxNode, from: bool, m: Seq<char>) -> Seq<Seq<char>> {
    let nm = spec_field_text(src, c, "name"@);
    if !from {
        if c.kind@ == "dotted_name"@ {
            seq![spec_node_text(src, c)]
        } else if c.kind@ == "aliased_import"@ && nm is Some {
            seq![nm->0]
        } else {
            Seq::empty()
        }
    } else if c.kind@ == "dotted_name"@ {
        if spec_node_text(src, c) != m { seq![import_under(m, spec_node_text(src, c))] } else { Seq::empty() }
    } else if c.kind@ == "aliased_import"@ {
        if nm is Some && nm->0.len() > 0 { seq![import_under(m, nm->0)] } else { Seq::empty() }
    } else if c.kind@ == "wildcard_import"@ && m.len() > 0 {
        seq![m]
    } else {
        Seq::empty()
    }
}

/// `py_import_here` over the first `n` children.
pub open spec fn py_import_upto(src: Seq<u8>, node: SyntaxNode, from: bool, m: Seq<char>, n: int) -> Seq<Seq<char>>
    decreases n,
{
    if n <= 0 || n > node.children@.len() {
        Seq::empty()
    } else {
        py_import_upto(src, node, from, m, n - 1) + py_import_here(src, node.children@[n - 1], from, m)
    }
}

/// The names an import statement imports, in order.
pub open spec fn py_import_names(src: Seq<u8>, node: SyntaxNode) -> Seq<Seq<char>> {
    let len = node.children@.len() as int;
    if node.kind@ == "import_statement"@ {
        py_import_upto(src, node, false, Seq::empty(), len)
    } else if node.kind@ == "import_from_statement"@ {
        py_import_upto(src, node, true, field_or(src, node, "module_name"@, Seq::empty()), len)
    } else {
        Seq::empty()
    }
}

/// `import a.b, c as d` and `from m import x, y as z, *`.
fn extract_import(ctx: &VisitorContext, node: &SyntaxNode, scope_id: SymbolId, out: &mut ParseOutput)
    requires
        visit_pre(*old(out), *ctx, *node, scope_id),
    ensures
        visit_post(*old(out), *final(out), *ctx),
        new_from(old(out).symbols@, final(out).symbols@, *node),
        final(out).symbols@ == old(out).symbols@,
        appended_to_phantoms(
            old(out).relations@,
            final(out).relations@,
            scope_id,
            RelationKind::Imports,
            py_import_names(ctx.source.spec_bytes(), *node),
        ),
{
    let ghost len = ctx.source.spec_bytes().len();
    let line = node.start_row;
    proof {
        lemma_append_none(old(out).relations@, scope_id, RelationKind::Imports);
        reveal_strlit("import_statement");
        reveal_strlit("import_from_statement");
        assert("import_statement"@ != "import_from_statement"@) by {
            assert("import_statement"@.len() != "import_from_statement"@.len());
        }
    }
    if str_eq(node.kind.as_str(), "import_statement") {
        let mut i: usize = 0;
        while i < node.children.len()
            invariant
                i <= node.children@.len(),
                len == ctx.source.spec_bytes().len(),
                spans_ok(*node, len),
                ctx_ok(*out, *ctx),
                new_from(old(out).symbols@, out.symbols@, *node),
                rel_extends(old(out).relations@, out.relations@),
                out.symbols@ == old(out).symbols@,
                owner_ok(out.symbols@, scope_id),
                appended_to_phantoms(
                    old(out).relations@,
                    out.relations@,
                    scope_id,
                    RelationKind::Imports,
                    py_import_upto(ctx.source.spec_bytes(), *node, false, Seq::empty(), i as int),
                ),
            decreases node.children@.len() - i,
        {
            let child = &node.children[i];
            proof {
                lemma_child_spans_ok(*node, len, i as int);
            }
            let ghost mid = out.relations@;
            let ghost pre = py_import_upto(ctx.source.spec_bytes(), *node, false, Seq::empty(), i as int);
            let ghost here = py_import_here(ctx.source.spec_bytes(), *child, false, Seq::empty());
            if str_eq(child.kind.as_str(), "dotted_name") {
                push_import(ctx, scope_id, node_text(ctx, child), line, out);
                proof {
                    lemma_append_phantom(old(out).relations@, mid, out.relations@, scope_id, RelationKind::Imports, pre, here[0]);
                    assert(pre.push(here[0]) =~= pre + here);
                }
            } else if str_eq(child.kind.as_str(), "aliased_import") {
                if let Some(n) = child_by_field(child, "name") {
                    proof {
                        lemma_child_spans_ok(*child, len, n as int);
                    }
                    push_import(ctx, scope_id, node_text(ctx, &child.children[n]), line, out);
                    proof {
                        lemma_append_phantom(old(out).relations@, mid, out.relations@, scope_id, RelationKind::Imports, pre, here[0]);
                        assert(pre.push(here[0]) =~= pre + here);
                    }
                }
            }
            proof {
                if here.len() == 0 {
                    assert(pre + here =~= pre);
                }
            }
            i = i + 1;
        }
    } else if str_eq(node.kind.as_str(), "import_from_statement") {
        let module_name = match child_by_field(node, "module_name") {
            Some(m) => {
                proof {
                    lemma_child_spans_ok(*node, len, m as int);
                }
                str_to_string(node_text(ctx, &node.children[m]))
            },
            None => String::new(),
        };
        let mut i: usize = 0;
        while i < node.children.len()
            invariant
                i <= node.children@.len(),
                len == ctx.source.spec_bytes().len(),
                spans_ok(*node, len),
                ctx_ok(*out, *ctx),
                new_from(old(out).symbols@, out.symbols@, *node),
                rel_extends(old(out).relations@, out.relations@),
                out.symbols@ == old(out).symbols@,
                owner_ok(out.symbols@, scope_id),
                module_name@ == field_or(ctx.source.spec_bytes(), *node, "module_name"@, Seq::empty()),
                appended_to_phantoms(
                    old(out).relations@,
                    out.relations@,
                    scope_id,
                    RelationKind::Imports,
                    py_import_upto(ctx.source.spec_bytes(), *node, true, module_name@, i as int),
                ),
            decreases node.children@.len() - i,
        {
            let child = &node.children[i];
            proof {
                lemma_child_spans_ok(*node, len, i as int);
            }
            let ghost mid = out.relations@;
            let ghost pre = py_import_upto(ctx.source.spec_bytes(), *node, true, module_name@, i as int);
            let ghost here = py_import_here(ctx.source.spec_bytes(), *child, true, module_name@);
            if str_eq(child.kind.as_str(), "dotted_name") {
                let text = node_text(ctx, child);
                if !str_eq(text, module_name.as_str()) {
                    let full_name = format_import_name(module_name.as_str(), text);
                    push_import(ctx, scope_id, full_name.as_str(), line, out);
                    proof {
                        lemma_append_phantom(old(out).relations@, mid, out.relations@, scope_id, RelationKind::Imports, pre, here[0]);
                        assert(pre.push(here[0]) =~= pre + here);
                    }
                }
            } else if str_eq(child.kind.as_str(), "aliased_import") {
                if let Some(n) = child_by_field(child, "name") {
                    proof {
                        lemma_child_spans_ok(*child, len, n as int);
                    }
                    let imported = node_text(ctx, &child.children[n]);
                    if imported.unicode_len() > 0 {
                        let full_name = format_import_name(module_name.as_str(), imported);
                        push_import(ctx, scope_id, full_name.as_str(), line, out);
                        proof {
                            lemma_append_phantom(old(out).relations@, mid, out.relations@, scope_id, RelationKind::Imports, pre, here[0]);
                            assert(pre.push(here[0]) =~= pre + here);
                        }
                    }
                }
            } else if str_eq(child.kind.as_str(), "wildcard_import") {
                if module_name.as_str().unicode_len() > 0 {
                    push_import(ctx, scope_id, module_name.as_str(), line, out);
                    proof {
                        lemma_append_phantom(old(out).relations@, mid, out.relations@, scope_id, RelationKind::Imports, pre, here[0]);
                        assert(pre.push(here[0]) =~= pre + here);
                    }
                }
            }
            proof {
                if here.len() == 0 {
                    assert(pre + here =~= pre);
                }
            }
            i = i + 1;
        }
    }
}

/// The names of the base classes among the first `n` arguments of a class:
/// the text of each identifier or attribute, in order.
pub open spec fn base_names(src: Seq<u8>, ch: Seq<SyntaxNode>, n: int) -> Seq<Seq<char>>
    decreases n,
{
    if n <= 0 {
        Seq::empty()
    } else {
        let prev = base_names(src, ch, n - 1);
        let c = ch[n - 1];
        if c.kind@ == "identifier"@ || c.kind@ == "attribute"@ {
            prev.push(spec_node_text(src, c))
        } else {
            prev
        }
    }
}

/// Inheritance relations from a class to each name in its superclass list.
fn extract_base_classes(ctx: &VisitorContext, args: &SyntaxNode, class_id: SymbolId, out: &mut ParseOutput)
    requires
        visit_pre(*old(out), *ctx, *args, class_id),
    ensures
        visit_post(*old(out), *final(out), *ctx),
        new_from(old(out).symbols@, final(out).symbols@, *args),
        final(out).symbols@ == old(out).symbols@,
        appended_to_phantoms(
            old(out).relations@,
            final(out).relations@,
            class_id,
            RelationKind::Inherits,
            base_names(ctx.source.spec_bytes(), args.children@, args.children@.len() as int),
        ),
{
    let ghost len = ctx.source.spec_bytes().len();
    assert(old(out).relations@.take(old(out).relations@.len() as int) =~= old(out).relations@);
    let mut i: usize = 0;
    while i < args.children.len()
        invariant
            i <= args.children@.len(),
            len == ctx.source.spec_bytes().len(),
            spans_ok(*args, len),
            ctx_ok(*out, *ctx),
            new_from(old(out).symbols@, out.symbols@, *args),
            rel_extends(old(out).relations@, out.relations@),
            out.symbols@ == old(out).symbols@,
            owner_ok(out.symbols@, class_id),
            appended_to_phantoms(
                old(out).relations@,
                out.relations@,
                class_id,
                RelationKind::Inherits,
                base_names(ctx.source.spec_bytes(), args.children@, i as int),
            ),
        decreases args.children@.len() - i,
    {
        let child = &args.children[i];
        proof {
            lemma_child_spans_ok(*args, len, i as int);
        }
        if str_eq(child.kind.as_str(), "identifier") || str_eq(child.kind.as_str(), "attribute") {
            let text = node_text(ctx, child);
            let target_id = phantom_of(text);
            let ghost mid = out.relations@;
            out.add_relation(ctx, class_id, target_id, RelationKind::Inherits, child.start_row);
            proof {
                assert(out.relations@.drop_last() =~= mid);
                lemma_append_phantom(
                    old(out).relations@,
                    mid,
                    out.relations@,
                    class_id,
                    RelationKind::Inherits,
                    base_names(ctx.source.spec_bytes(), args.children@, i as int),
                    text@,
                );
            }
        }
        i = i + 1;
    }
}

/// The callee a child names itself: a call's `function` field, when not empty.
pub open spec fn py_calls_here(src: Seq<u8>, c: SyntaxNode) -> Seq<Seq<char>> {
    if c.kind@ == "call"@ && spec_field_text(src, c, "function"@) is Some && spec_field_text(src, c, "function"@)->0.len() > 0 {
        seq![spec_field_text(src, c, "function"@)->0]
    } else {
        Seq::empty()
    }
}

/// The callee names under a node, in traversal order.
pub open spec fn py_calls_names(src: Seq<u8>, node: SyntaxNode) -> Seq<Seq<char>>
    decreases node, node.children@.len() + 1,
{
    py_calls_names_upto(src, node, node.children@.len() as int)
}

/// `py_calls_names` over the first `n` children.
pub open spec fn py_calls_names_upto(src: Seq<u8>, node: SyntaxNode, n: int) -> Seq<Seq<char>>
    decreases node, n,
{
    if n <= 0 || n > node.children@.len() {
        Seq::empty()
    } else {
        let c = node.children@[n - 1];
        py_calls_names_upto(src, node, n - 1) + py_calls_here(src, c) + if c.kind@ != "function_definition"@ && c.kind@ != "class_definition"@ {
            py_calls_names(src, c)
        } else {
            Seq::empty()
        }
    }
}

/// Call relations from a function to each callee named in its body, not
/// looking into nested functions and classes.
fn traverse_for_calls(ctx: &VisitorContext, node: &SyntaxNode, caller_id: SymbolId, out: &mut ParseOutput)
    requires
        visit_pre(*old(out), *ctx, *node, caller_id),
    ensures
        visit_post(*old(out), *final(out), *ctx),
        new_from(old(out).symbols@, final(out).symbols@, *node),
        final(out).symbols@ == old(out).symbols@,
        appended_to_phantoms(
            old(out).relations@,
            final(out).relations@,
            caller_id,
            RelationKind::Calls,
            py_calls_names(ctx.source.spec_bytes(), *node),
        ),
    decreases *node,
{
    let ghost len = ctx.source.spec_bytes().len();
    proof {
        lemma_append_none(old(out).relations@, caller_id, RelationKind::Calls);
    }
    let mut i: usize = 0;
    while i < node.children.len()
        invariant
            i <= node.children@.len(),
            len == ctx.source.spec_bytes().len(),
            spans_ok(*node, len),
            ctx_ok(*out, *ctx),
            new_from(old(out).symbols@, out.symbols@, *node),
            rel_extends(old(out).relations@, out.relations@),
            out.symbols@ == old(out).symbols@,
            owner_ok(out.symbols@, caller_id),
            appended_to_phantoms(
                old(out).relations@,
                out.relations@,
                caller_id,
                RelationKind::Calls,
                py_calls_names_upto(ctx.source.spec_bytes(), *node, i as int),
            ),
        decreases node.children@.len() - i,
    {
        let child = &node.children[i];
        proof {
            lemma_child_spans_ok(*node, len, i as int);
        }
        let ghost mid = out.relations@;
        let ghost pre = py_calls_names_upto(ctx.source.spec_bytes(), *node, i as int);
        if str_eq(child.kind.as_str(), "call") {
            if let Some(f) = child_by_field(child, "function") {
                proof {
                    lemma_child_spans_ok(*child, len, f as int);
                }
                let callee_name = node_text(ctx, &child.children[f]);
                if callee_name.unicode_len() > 0 {
                    let target_id = phantom_of(callee_name);
                    out.add_relation(ctx, caller_id, target_id, RelationKind::Calls, child.start_row);
                    proof {
                        lemma_append_phantom(old(out).relations@, mid, out.relations@, caller_id, RelationKind::Calls, pre, callee_name@);
                        assert(pre.push(callee_name@) =~= pre + seq![callee_name@]);
                    }
                }
            }
        }
        let ghost here = py_calls_here(ctx.source.spec_bytes(), *child);
        proof {
            if here.len() == 0 {
                assert(pre + here =~= pre);
            }
        }
        assert(appended_to_phantoms(old(out).relations@, out.relations@, caller_id, RelationKind::Calls, pre + here));
        let ghost mid2 = out.relations@;
        if !str_eq(child.kind.as_str(), "function_definition") && !str_eq(child.kind.as_str(), "class_definition") {
            traverse_for_calls(ctx, child, caller_id, out);
            proof {
                lemma_append_all(
                    old(out).relations@,
                    mid2,
                    out.relations@,
                    caller_id,
                    RelationKind::Calls,
                    pre + here,
                    py_calls_names(ctx.source.spec_bytes(), *child),
                );
            }
        } else {
            assert(pre + here + Seq::<Seq<char>>::empty() =~= pre + here);
        }
        i = i + 1;
    }
}

/// The statement kinds that can hold nested definitions.
pub open spec fn py_compound_kind(k: Seq<char>) -> bool {
    k == "if_statement"@ || k == "for_statement"@ || k == "while_statement"@ || k == "try_statement"@ || k == "with_statement"@
        || k == "elif_clause"@ || k == "else_clause"@ || k == "except_clause"@ || k == "finally_clause"@ || k == "block"@
}

/// Whether a statement kind can hold nested definitions.
fn is_compound_kind(k: &str) -> (r: bool)
    ensures
        r == py_compound_kind(k@),
{
    str_eq(k, "if_statement") || str_eq(k, "for_statement") || str_eq(k, "while_statement") || str_eq(
        k,
        "try_statement",
    ) || str_eq(k, "with_statement") || str_eq(k, "elif_clause") || str_eq(k, "else_clause") || str_eq(
        k,
        "except_clause",
    ) || str_eq(k, "finally_clause") || str_eq(k, "block")
}

/// `syms` holds a symbol for each definition nested in `node`, also inside
/// `syms` and `rels` hold what each definition nested in `node` declares,
/// also inside control flow, scoped in `scope`.
pub open spec fn py_nested_held(src: Seq<u8>, syms: Seq<CodeSymbol>, rels: Seq<CodeRelation>, node: SyntaxNode, scope: Seq<Seq<char>>) -> bool
    decreases node, node.children@.len() + 5,
{
    py_nested_held_upto(src, syms, rels, node, scope, node.children@.len() as int)
}

/// `py_nested_held` over the first `n` children.
pub open spec fn py_nested_held_upto(
    src: Seq<u8>,
    syms: Seq<CodeSymbol>,
    rels: Seq<CodeRelation>,
    node: SyntaxNode,
    scope: Seq<Seq<char>>,
    n: int,
) -> bool
    decreases node, n + 4,
{
    if n <= 0 || n > node.children@.len() {
        true
    } else {
        let c = node.children@[n - 1];
        &&& py_nested_held_upto(src, syms, rels, node, scope, n - 1)
        &&& if c.kind@ == "function_definition"@ || c.kind@ == "class_definition"@ || c.kind@ == "decorated_definition"@ {
            py_def_stmt(src, syms, rels, c, scope, false)
        } else if py_compound_kind(c.kind@) {
            py_nested_held(src, syms, rels, c, scope)
        } else {
            true
        }
    }
}

/// Nested definitions stay held as the lists grow.
pub proof fn lemma_py_nested_extends(
    src: Seq<u8>,
    a: Seq<CodeSymbol>,
    b: Seq<CodeSymbol>,
    ra: Seq<CodeRelation>,
    rb: Seq<CodeRelation>,
    node: SyntaxNode,
    scope: Seq<Seq<char>>,
)
    requires
        extends(a, b),
        rel_extends(ra, rb),
        py_nested_held(src, a, ra, node, scope),
    ensures
        py_nested_held(src, b, rb, node, scope),
    decreases node, node.children@.len() + 5,
{
    lemma_py_nested_upto_extends(src, a, b, ra, rb, node, scope, node.children@.len() as int);
}

/// `lemma_py_nested_extends` over the first `n` children.
pub proof fn lemma_py_nested_upto_extends(
    src: Seq<u8>,
    a: Seq<CodeSymbol>,
    b: Seq<CodeSymbol>,
    ra: Seq<CodeRelation>,
    rb: Seq<CodeRelation>,
    node: SyntaxNode,
    scope: Seq<Seq<char>>,
    n: int,
)
    requires
        extends(a, b),
        rel_extends(ra, rb),
        py_nested_held_upto(src, a, ra, node, scope, n),
    ensures
        py_nested_held_upto(src, b, rb, node, scope, n),
    decreases node, n + 4,
{
    if 0 < n <= node.children@.len() {
        lemma_py_nested_upto_extends(src, a, b, ra, rb, node, scope, n - 1);
        let c = node.children@[n - 1];
        if c.kind@ == "function_definition"@ || c.kind@ == "class_definition"@ || c.kind@ == "decorated_definition"@ {
            lemma_py_def_stmt_extends(src, a, b, ra, rb, c, scope, false);
        } else if py_compound_kind(c.kind@) {
            lemma_py_nested_extends(src, a, b, ra, rb, c, scope);
        }
    }
}

/// Definitions nested in a function body, also inside control flow.
fn extract_nested_recursive<'a, 's>(
    ctx: &VisitorContext<'a>,
    node: &SyntaxNode,
    scope: &[&'s str],
    parent_id: SymbolId,
    out: &mut ParseOutput,
) where 'a: 's
    requires
        visit_pre(*old(out), *ctx, *node, parent_id),
    ensures
        visit_post(*old(out), *final(out), *ctx),
        new_from(old(out).symbols@, final(out).symbols@, *node),
        py_nested_held(ctx.source.spec_bytes(), final(out).symbols@, final(out).relations@, *node, str_views(scope@)),
    decreases *node,
{
    let ghost len = ctx.source.spec_bytes().len();
    let ghost src = ctx.source.spec_bytes();
    let ghost sv = str_views(scope@);
    let ghost start = out.symbols@;
    let mut i: usize = 0;
    while i < node.children.len()
        invariant
            i <= node.children@.len(),
            len == ctx.source.spec_bytes().len(),
            src == ctx.source.spec_bytes(),
            sv == str_views(scope@),
            spans_ok(*node, len),
            ctx_ok(*out, *ctx),
            new_from(old(out).symbols@, out.symbols@, *node),
            rel_extends(old(out).relations@, out.relations@),
            extends(start, out.symbols@),
            start == old(out).symbols@,
            owner_ok(out.symbols@, parent_id),
            py_nested_held_upto(src, out.symbols@, out.relations@, *node, sv, i as int),
        decreases node.children@.len() - i,
    {
        let child = &node.children[i];
        proof {
            lemma_child_spans_ok(*node, len, i as int);
        }
        let ghost before = out.symbols@;
        let ghost rbefore = out.relations@;
        proof {
            lemma_py_kinds_distinct();
        }
        let k = child.kind.as_str();
        if str_eq(k, "function_definition") {
            extract_function(ctx, child, scope, parent_id, false, out);
            assert(py_def_stmt(src, out.symbols@, out.relations@, *child, sv, false));
        } else if str_eq(k, "class_definition") {
            extract_class(ctx, child, scope, parent_id, out);
            assert(py_def_stmt(src, out.symbols@, out.relations@, *child, sv, false));
        } else if str_eq(k, "decorated_definition") {
            extract_decorated(ctx, child, scope, parent_id, false, out);
            assert(py_def_stmt(src, out.symbols@, out.relations@, *child, sv, false));
        } else if is_compound_kind(k) {
            extract_nested_recursive(ctx, child, scope, parent_id, out);
        }
        proof {
            lemma_extends_owner(before, out.symbols@, parent_id);
            lemma_new_from_child(old(out).symbols@, before, out.symbols@, *node, i as int);
            lemma_py_nested_upto_extends(src, before, out.symbols@, rbefore, out.relations@, *node, sv, i as int);
        }
        i = i + 1;
    }
}

} // verus!
