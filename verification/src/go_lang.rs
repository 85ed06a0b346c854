//! Symbols and relations of a Go source file: the package, functions,
//! methods scoped by their receiver type, type declarations, constants and
//! variables, imports and calls.
use vstd::prelude::*;
use vstd::string::StringSliceAdditionalSpecFns;
use crate::chunker::SyntaxNode;
use crate::comments::{opt_string, string_views, spec_comment_lines};
use crate::retrieval::join_lines;
use crate::resolver::phantom_id;
use crate::qualified_name::{join_dotted, spec_normalize, str_views};
use crate::comments::{comment_lines, join_newlines};
use crate::extract::{
    new_from, in_subtree, lemma_new_from_child, lemma_new_from_trans,
    rel_extends,
    all_spans_ok, child_by_field, ctx_ok, extends, lemma_all_children_spans_ok, lemma_child_spans_ok,
    lemma_extends_owner, node_text, owner_ok, phantom_of, spans_ok, visit_post, visit_pre, ParseOutput, VisitorContext, opt_text, spec_field_text, spec_first_inner_text, spec_first_either_from, spec_node_text, symbol_is, children_added, has_symbol, lemma_added_has, lemma_has_extends, has_relations_to, lemma_appended_has, lemma_relations_to_extends, field_or, field_after, added_named, pushed_relation, spec_child_by_field, appended_to_phantoms, lemma_append_phantom, lemma_append_all, lemma_append_none};
use crate::fusion::str_starts_with;
use crate::language::{str_eq, Language};
use crate::naming::{file_stem_or, qualified_name, spec_stem_or};
use crate::qualified_name::QualifiedName;
use crate::relation::{CodeRelation, RelationKind};
use crate::symbol::{CodeSymbol, SymbolId, SymbolKind};
use crate::text::{chars_of, spec_trim, string_from_chars, string_push_str, str_to_string, trim_vec};
use crate::rust_lang::{chars_before, lemma_chars_before};
use crate::typescript::sib_pre;

verus! {

/// The text of the field `name` of the node, if it has one.
fn field_text<'a>(ctx: &VisitorContext<'a>, node: &SyntaxNode, name: &str) -> (r: Option<&'a str>)
    requires
        spans_ok(*node, ctx.source.spec_bytes().len()),
    ensures
        opt_text(r) == spec_field_text(ctx.source.spec_bytes(), *node, name@),
{
    match child_by_field(node, name) {
        Some(i) => {
            proof {
                lemma_child_spans_ok(*node, ctx.source.spec_bytes().len(), i as int);
            }
            Some(node_text(ctx, &node.children[i]))
        },
        None => None,
    }
}

/// The chars of `cs` in `[a, b)` as a string.
fn chars_between(cs: &Vec<char>, a: usize, b: usize) -> (r: Vec<char>)
    requires
        a <= b <= cs@.len(),
    ensures
        r@ == cs@.subrange(a as int, b as int),
{
    let mut v: Vec<char> = Vec::new();
    let mut k: usize = a;
    while k < b
        invariant
            a <= k <= b <= cs@.len(),
            v@ == cs@.subrange(a as int, k as int),
        decreases b - k,
    {
        v.push(cs[k]);
        assert(cs@.subrange(a as int, k + 1) =~= cs@.subrange(a as int, k as int).push(cs@[k as int]));
        k = k + 1;
    }
    v
}

/// `s` without the `c`s at its start.
pub open spec fn trim_char_start(s: Seq<char>, c: char) -> Seq<char>
    decreases s.len(),
{
    if s.len() > 0 && s[0] == c {
        trim_char_start(s.drop_first(), c)
    } else {
        s
    }
}

/// `s` without the `c`s at its end.
pub open spec fn trim_char_end(s: Seq<char>, c: char) -> Seq<char>
    decreases s.len(),
{
    if s.len() > 0 && s.last() == c {
        trim_char_end(s.drop_last(), c)
    } else {
        s
    }
}

/// Skipping the leading `c`s of `cs`: the index of the first other char.
fn skip_leading(cs: &Vec<char>, c: char) -> (a: usize)
    ensures
        a <= cs@.len(),
        trim_char_start(cs@, c) == cs@.subrange(a as int, cs@.len() as int),
        forall|k: int| 0 <= k < a ==> cs@[k] == c,
{
    let n = cs.len();
    let mut a: usize = 0;
    assert(cs@.subrange(0, n as int) =~= cs@);
    while a < n && cs[a] == c
        invariant
            n == cs@.len(),
            a <= n,
            trim_char_start(cs@.subrange(a as int, n as int), c) == trim_char_start(cs@, c),
            forall|k: int| 0 <= k < a ==> cs@[k] == c,
        decreases n - a,
    {
        assert(cs@.subrange(a as int, n as int).drop_first() =~= cs@.subrange(a + 1, n as int));
        a = a + 1;
    }
    a
}

/// An import path without the double quotes at either end.
fn trim_double_quotes(text: &str) -> (r: String)
    ensures
        r@ == trim_char_end(trim_char_start(text@, '"'), '"'),
{
    let cs = chars_of(text);
    let a = skip_leading(&cs, '"');
    let n = cs.len();
    let mut b: usize = n;
    assert(cs@.subrange(a as int, b as int) == trim_char_start(text@, '"'));
    while b > a && cs[b - 1] == '"'
        invariant
            a <= b <= n,
            n == cs@.len(),
            trim_char_end(cs@.subrange(a as int, b as int), '"') == trim_char_end(trim_char_start(text@, '"'), '"'),
        decreases b - a,
    {
        assert(cs@.subrange(a as int, b as int).drop_last() =~= cs@.subrange(a as int, b - 1));
        b = b - 1;
    }
    string_from_chars(&chars_between(&cs, a, b))
}

/// A receiver's type name: without leading `*`, before any type
/// parameters, trimmed.
fn clean_receiver_type(text: &str) -> (r: String)
    ensures
        r@ == spec_trim(chars_before(trim_char_start(text@, '*'), '[')),
{
    let cs = chars_of(text);
    let a = skip_leading(&cs, '*');
    let mut b: usize = a;
    while b < cs.len() && cs[b] != '['
        invariant
            a <= b <= cs@.len(),
            forall|k: int| a <= k < b ==> cs@[k] != '[',
        decreases cs@.len() - b,
    {
        b = b + 1;
    }
    proof {
        let t = cs@.subrange(a as int, cs@.len() as int);
        lemma_chars_before(t, '[', b - a);
        assert(t.take(b - a) =~= cs@.subrange(a as int, b as int));
    }
    let head = chars_between(&cs, a, b);
    string_from_chars(&trim_vec(&head))
}

/// The text after the first `n` chars, trimmed.
fn rest_trimmed(text: &str, n: usize) -> (r: String)
    ensures
        r@ == spec_trim(text@.skip(if n < text@.len() { n as int } else { text@.len() as int })),
{
    let cs = chars_of(text);
    let a = if n < cs.len() {
        n
    } else {
        cs.len()
    };
    let rest = chars_between(&cs, a, cs.len());
    assert(rest@ =~= text@.skip(a as int));
    string_from_chars(&trim_vec(&rest))
}

/// The comment lines among `sibs[..j]` that run up to `j`: each `//`
/// line trimmed, each block comment's cleaned lines, in source order.
pub open spec fn go_doc_lines(src: Seq<u8>, sibs: Seq<SyntaxNode>, j: int) -> Seq<Seq<char>>
    decreases j,
{
    if j <= 0 || j > sibs.len() || sibs[j - 1].kind@ != "comment"@ {
        Seq::empty()
    } else {
        let t = spec_node_text(src, sibs[j - 1]);
        if "//"@.is_prefix_of(t) {
            go_doc_lines(src, sibs, j - 1).push(spec_trim(t.skip(if 2 < t.len() { 2int } else { t.len() as int })))
        } else if "/*"@.is_prefix_of(t) {
            go_doc_lines(src, sibs, j - 1) + spec_comment_lines(t, "/*"@)
        } else {
            Seq::empty()
        }
    }
}

/// The comments right before the node at `idx`: each `//` line trimmed,
/// each block comment's cleaned lines, in source order and joined.
fn extract_go_doc(ctx: &VisitorContext, sibs: &Vec<SyntaxNode>, idx: usize) -> (r: Option<String>)
    requires
        idx < sibs@.len(),
        all_spans_ok(sibs@, ctx.source.spec_bytes().len()),
    ensures
        r matches Some(d) ==> go_doc_lines(ctx.source.spec_bytes(), sibs@, idx as int).len() > 0
            && d@ == join_lines(go_doc_lines(ctx.source.spec_bytes(), sibs@, idx as int)),
        r is None ==> go_doc_lines(ctx.source.spec_bytes(), sibs@, idx as int).len() == 0,
{
    let ghost src = ctx.source.spec_bytes();
    let mut rev: Vec<String> = Vec::new();
    let mut j: usize = idx;
    let mut stopped = false;
    while j > 0 && !stopped
        invariant
            j <= idx < sibs@.len(),
            src == ctx.source.spec_bytes(),
            all_spans_ok(sibs@, ctx.source.spec_bytes().len()),
            stopped ==> go_doc_lines(src, sibs@, j as int).len() == 0,
            go_doc_lines(src, sibs@, idx as int) == go_doc_lines(src, sibs@, j as int) + string_views(rev@).reverse(),
        decreases j + (if stopped { 0int } else { 1int }),
    {
        let sib = &sibs[j - 1];
        if !str_eq(sib.kind.as_str(), "comment") {
            stopped = true;
        } else {
            let text = node_text(ctx, sib);
            let ghost before = string_views(rev@);
            if str_starts_with(text, "//") {
                let line = rest_trimmed(text, 2);
                rev.push(line);
                proof {
                    assert(string_views(rev@) =~= before.push(line@));
                    assert(string_views(rev@).reverse() =~= seq![line@] + before.reverse());
                    assert(go_doc_lines(src, sibs@, j - 1).push(line@) + before.reverse()
                        =~= go_doc_lines(src, sibs@, j - 1) + string_views(rev@).reverse());
                }
                j = j - 1;
            } else if str_starts_with(text, "/*") {
                let cleaned = comment_lines(text, "/*");
                let ghost cl = string_views(cleaned@);
                let mut k: usize = cleaned.len();
                while k > 0
                    invariant
                        k <= cleaned@.len(),
                        cl == string_views(cleaned@),
                        string_views(rev@) =~= before + cl.subrange(k as int, cl.len() as int).reverse(),
                    decreases k,
                {
                    let ghost mid = string_views(rev@);
                    let line = cleaned[k - 1].clone();
                    rev.push(line);
                    proof {
                        assert(string_views(rev@) =~= mid.push(line@));
                        assert(cl.subrange(k - 1, cl.len() as int).reverse()
                            =~= cl.subrange(k as int, cl.len() as int).reverse().push(cl[k - 1]));
                    }
                    k = k - 1;
                }
                proof {
                    assert(cl.subrange(0, cl.len() as int) =~= cl);
                    assert(string_views(rev@).reverse() =~= cl + before.reverse());
                    assert(go_doc_lines(src, sibs@, j as int) == go_doc_lines(src, sibs@, j - 1) + cl);
                    assert(go_doc_lines(src, sibs@, j - 1) + cl + before.reverse()
                        =~= go_doc_lines(src, sibs@, j - 1) + string_views(rev@).reverse());
                }
                j = j - 1;
            } else {
                stopped = true;
            }
        }
    }
    proof {
        assert(go_doc_lines(src, sibs@, j as int).len() == 0);
        assert(go_doc_lines(src, sibs@, idx as int) =~= string_views(rev@).reverse());
    }
    if rev.len() == 0 {
        return None;
    }
    let mut lines: Vec<String> = Vec::new();
    let mut k: usize = rev.len();
    while k > 0
        invariant
            k <= rev@.len(),
            string_views(lines@) =~= string_views(rev@).reverse().take(rev@.len() - k),
        decreases k,
    {
        let ghost before = string_views(lines@);
        let line = rev[k - 1].clone();
        lines.push(line);
        proof {
            assert(string_views(lines@) =~= before.push(line@));
            assert(string_views(rev@).reverse()[rev@.len() - k] == string_views(rev@)[k - 1]);
            assert(string_views(lines@) =~= string_views(rev@).reverse().take(rev@.len() - k + 1));
        }
        k = k - 1;
    }
    assert(string_views(rev@).reverse().take(rev@.len() as int) =~= string_views(rev@).reverse());
    Some(join_newlines(&lines))
}

/// The package a file declares: the text of the name in its first package
/// clause that has one, else the file's stem, else `main`.
pub open spec fn go_package_name(src: Seq<u8>, root: SyntaxNode, file_path: Seq<char>) -> Seq<char> {
    match spec_first_inner_text(src, root.children@, "package_clause"@, "package_identifier"@, "package_identifier"@, 0) {
        Some(t) => t,
        None => spec_stem_or(file_path, "main"@),
    }
}

/// The package a file declares, or its fallback name.
fn extract_package_name(ctx: &VisitorContext, root: &SyntaxNode) -> (r: String)
    requires
        spans_ok(*root, ctx.source.spec_bytes().len()),
    ensures
        r@ == go_package_name(ctx.source.spec_bytes(), *root, ctx.file_path@),
{
    let ghost len = ctx.source.spec_bytes().len();
    let ghost src = ctx.source.spec_bytes();
    let mut i: usize = 0;
    while i < root.children.len()
        invariant
            i <= root.children@.len(),
            len == ctx.source.spec_bytes().len(),
            src == ctx.source.spec_bytes(),
            spans_ok(*root, len),
            spec_first_inner_text(src, root.children@, "package_clause"@, "package_identifier"@, "package_identifier"@, 0)
                == spec_first_inner_text(src, root.children@, "package_clause"@, "package_identifier"@, "package_identifier"@, i as int),
        decreases root.children@.len() - i,
    {
        let child = &root.children[i];
        if str_eq(child.kind.as_str(), "package_clause") {
            proof {
                lemma_child_spans_ok(*root, len, i as int);
            }
            let mut j: usize = 0;
            while j < child.children.len()
                invariant
                    j <= child.children@.len(),
                    len == ctx.source.spec_bytes().len(),
                    src == ctx.source.spec_bytes(),
                    spans_ok(*child, len),
                    *child == root.children@[i as int],
                    i < root.children@.len(),
                    child.kind@ == "package_clause"@,
                    spec_first_either_from(child.children@, "package_identifier"@, "package_identifier"@, 0)
                        == spec_first_either_from(child.children@, "package_identifier"@, "package_identifier"@, j as int),
                    spec_first_inner_text(src, root.children@, "package_clause"@, "package_identifier"@, "package_identifier"@, 0)
                        == spec_first_inner_text(src, root.children@, "package_clause"@, "package_identifier"@, "package_identifier"@, i as int),
                decreases child.children@.len() - j,
            {
                if str_eq(child.children[j].kind.as_str(), "package_identifier") {
                    proof {
                        lemma_child_spans_ok(*child, len, j as int);
                    }
                    return str_to_string(node_text(ctx, &child.children[j]));
                }
                j = j + 1;
            }
        }
        i = i + 1;
    }
    file_stem_or(ctx.file_path, "main")
}

/// `func name(params) result`.
fn build_func_signature(ctx: &VisitorContext, node: &SyntaxNode, name: &str) -> (r: String)
    requires
        spans_ok(*node, ctx.source.spec_bytes().len()),
    ensures
        r@ == "func "@ + name@ + field_or(ctx.source.spec_bytes(), *node, "parameters"@, "()"@) + field_after(
            ctx.source.spec_bytes(),
            *node,
            "result"@,
            " "@,
        ),
{
    let mut sig = str_to_string("func ");
    string_push_str(&mut sig, name);
    match field_text(ctx, node, "parameters") {
        Some(p) => string_push_str(&mut sig, p),
        None => string_push_str(&mut sig, "()"),
    }
    if let Some(res) = field_text(ctx, node, "result") {
        string_push_str(&mut sig, " ");
        string_push_str(&mut sig, res);
    }
    sig
}

/// Extract the symbols and relations of a Go file from its syntax tree.
/// The first symbol is the package, spanning the whole tree.
pub fn extract(ctx: &VisitorContext, root: &SyntaxNode) -> (out: ParseOutput)
    requires
        spans_ok(*root, ctx.source.spec_bytes().len()),
    ensures
        ctx_ok(out, *ctx),
        new_from(Seq::empty(), out.symbols@, *root),
        out.symbols@.len() >= 1,
        out.symbols@[0].qualified_name@ == out.symbols@[0].name@,
        out.symbols@[0].name@ == go_package_name(ctx.source.spec_bytes(), *root, ctx.file_path@),
        out.symbols@[0].kind == SymbolKind::Package,
        out.symbols@[0].byte_range.start == root.start_byte,
        out.symbols@[0].byte_range.end == root.end_byte,
        forall|i: int|
            0 <= i < root.children@.len() ==> go_decl_held(
                ctx.source.spec_bytes(),
                out.symbols@,
                out.relations@,
                #[trigger] root.children@[i],
                seq![go_package_name(ctx.source.spec_bytes(), *root, ctx.file_path@)],
                out.symbols@[0].id,
            ),
{
    let mut out = ParseOutput::new();
    let package_name = extract_package_name(ctx, root);
    let package_qname = package_name.clone();
    let pkg_id = out.add_symbol(ctx, root, package_name.as_str(), package_qname, SymbolKind::Package, None, None);
    let ghost first = out.symbols@[0];
    let scope = vec![package_name.as_str()];
    assert(str_views(scope@) =~= seq![package_name@]);
    assert(pkg_id == first.id);
    let ghost added = out.symbols@;
    assert(new_from(Seq::empty(), added, *root));
    extract_declarations(ctx, root, scope.as_slice(), pkg_id, &mut out);
    proof {
        lemma_new_from_trans(Seq::empty(), added, out.symbols@, *root);
    }
    assert(out.symbols@[0] == first);
    out
}

/// The declaration kinds a Go visitor tells apart are distinct.
pub proof fn lemma_go_kinds_distinct()
    ensures
        "function_declaration"@ != "method_declaration"@,
        "function_declaration"@ != "type_declaration"@,
        "function_declaration"@ != "const_declaration"@,
        "function_declaration"@ != "var_declaration"@,
        "function_declaration"@ != "import_declaration"@,
        "method_declaration"@ != "type_declaration"@,
        "method_declaration"@ != "const_declaration"@,
        "method_declaration"@ != "var_declaration"@,
        "method_declaration"@ != "import_declaration"@,
        "type_declaration"@ != "const_declaration"@,
        "type_declaration"@ != "var_declaration"@,
        "type_declaration"@ != "import_declaration"@,
        "const_declaration"@ != "var_declaration"@,
        "const_declaration"@ != "import_declaration"@,
        "var_declaration"@ != "import_declaration"@,
{
    reveal_strlit("function_declaration");
    reveal_strlit("method_declaration");
    reveal_strlit("type_declaration");
    reveal_strlit("const_declaration");
    reveal_strlit("var_declaration");
    reveal_strlit("import_declaration");
    assert("function_declaration"@.len() != "method_declaration"@.len());
    assert("function_declaration"@.len() != "type_declaration"@.len());
    assert("function_declaration"@.len() != "const_declaration"@.len());
    assert("function_declaration"@.len() != "var_declaration"@.len());
    assert("function_declaration"@.len() != "import_declaration"@.len());
    assert("method_declaration"@.len() != "type_declaration"@.len());
    assert("method_declaration"@.len() != "const_declaration"@.len());
    assert("method_declaration"@.len() != "var_declaration"@.len());
    assert("method_declaration"@[0] != "import_declaration"@[0]);
    assert("type_declaration"@.len() != "const_declaration"@.len());
    assert("type_declaration"@.len() != "var_declaration"@.len());
    assert("type_declaration"@.len() != "import_declaration"@.len());
    assert("const_declaration"@.len() != "var_declaration"@.len());
    assert("const_declaration"@.len() != "import_declaration"@.len());
    assert("var_declaration"@.len() != "import_declaration"@.len());
}

/// The kind of symbol a listed child makes: `fixed` where given, else
/// the kind a type spec makes.
pub open spec fn go_listed_kind(fixed: Option<SymbolKind>, c: SyntaxNode) -> SymbolKind {
    match fixed {
        Some(k) => k,
        None => go_type_kind(c),
    }
}

/// `syms` holds a symbol for each listed child of `ch`: its name,
/// qualified within `scope`, of the kind `go_listed_kind` gives it.
pub open spec fn go_listed_held(
    src: Seq<u8>,
    syms: Seq<CodeSymbol>,
    ch: Seq<SyntaxNode>,
    idx: Seq<int>,
    scope: Seq<Seq<char>>,
    fixed: Option<SymbolKind>,
) -> bool {
    forall|k: int|
        0 <= k < idx.len() ==> has_symbol(
            syms,
            field_or(src, ch[#[trigger] idx[k]], "name"@, Seq::empty()),
            join_dotted(scope.push(field_or(src, ch[idx[k]], "name"@, Seq::empty()))),
            go_listed_kind(fixed, ch[idx[k]]),
            ch[idx[k]],
        )
}

/// The calls a function declaration makes, from its symbol `id`: one to
/// each callee in its body.
pub open spec fn go_fn_calls(src: Seq<u8>, rels: Seq<CodeRelation>, c: SyntaxNode, id: SymbolId) -> bool {
    spec_child_by_field(c, "body"@) matches Some(b) ==> (0 <= b < c.children@.len() ==> has_relations_to(
        rels,
        id,
        RelationKind::Calls,
        go_calls_names(src, c.children@[b]),
    ))
}

/// `syms` and `rels` hold what a top-level declaration declares: a
/// function or method (scoped by its receiver type) with a call of each
/// callee in its body, each named type spec, each named constant or
/// variable, an import from `owner` of each imported path.
pub open spec fn go_decl_held(
    src: Seq<u8>,
    syms: Seq<CodeSymbol>,
    rels: Seq<CodeRelation>,
    c: SyntaxNode,
    scope: Seq<Seq<char>>,
    owner: SymbolId,
) -> bool {
    let k = c.kind@;
    if k == "function_declaration"@ || k == "method_declaration"@ {
        let m = k == "method_declaration"@;
        match spec_field_text(src, c, "name"@) {
            Some(n) => n.len() > 0 ==> exists|j: int|
                0 <= j < syms.len() && symbol_is(
                    #[trigger] syms[j],
                    n,
                    join_dotted(go_name_scope(src, c, scope, m).push(n)),
                    if m { SymbolKind::Method } else { SymbolKind::Function },
                    c,
                ) && go_fn_calls(src, rels, c, syms[j].id),
            None => true,
        }
    } else if k == "type_declaration"@ {
        go_listed_held(src, syms, c.children@, go_type_specs(src, c.children@, c.children@.len() as int), scope, None)
    } else if k == "const_declaration"@ || k == "var_declaration"@ {
        go_listed_held(
            src,
            syms,
            c.children@,
            go_value_specs(src, c.children@, c.children@.len() as int),
            scope,
            Some(if k == "const_declaration"@ { SymbolKind::Constant } else { SymbolKind::Variable }),
        )
    } else if k == "import_declaration"@ {
        has_relations_to(rels, owner, RelationKind::Imports, go_import_names(src, c.children@, c.children@.len() as int))
    } else {
        true
    }
}

/// Listed symbols stay held as the list grows.
pub proof fn lemma_go_listed_extends(
    src: Seq<u8>,
    a: Seq<CodeSymbol>,
    b: Seq<CodeSymbol>,
    ch: Seq<SyntaxNode>,
    idx: Seq<int>,
    scope: Seq<Seq<char>>,
    fixed: Option<SymbolKind>,
)
    requires
        extends(a, b),
        go_listed_held(src, a, ch, idx, scope, fixed),
    ensures
        go_listed_held(src, b, ch, idx, scope, fixed),
{
    assert forall|k: int| 0 <= k < idx.len() implies has_symbol(
        b,
        field_or(src, ch[#[trigger] idx[k]], "name"@, Seq::empty()),
        join_dotted(scope.push(field_or(src, ch[idx[k]], "name"@, Seq::empty()))),
        go_listed_kind(fixed, ch[idx[k]]),
        ch[idx[k]],
    ) by {
        lemma_has_extends(
            a,
            b,
            field_or(src, ch[idx[k]], "name"@, Seq::empty()),
            join_dotted(scope.push(field_or(src, ch[idx[k]], "name"@, Seq::empty()))),
            go_listed_kind(fixed, ch[idx[k]]),
            ch[idx[k]],
        );
    }
}

/// What a top-level declaration declares stays held as the list grows.
pub proof fn lemma_go_decl_extends(
    src: Seq<u8>,
    a: Seq<CodeSymbol>,
    b: Seq<CodeSymbol>,
    ra: Seq<CodeRelation>,
    rb: Seq<CodeRelation>,
    c: SyntaxNode,
    scope: Seq<Seq<char>>,
    owner: SymbolId,
)
    requires
        extends(a, b),
        rel_extends(ra, rb),
        go_decl_held(src, a, ra, c, scope, owner),
    ensures
        go_decl_held(src, b, rb, c, scope, owner),
{
    let k = c.kind@;
    if k == "function_declaration"@ || k == "method_declaration"@ {
        let m = k == "method_declaration"@;
        match spec_field_text(src, c, "name"@) {
            Some(n) => if n.len() > 0 {
                let j = choose|j: int|
                    0 <= j < a.len() && symbol_is(
                        #[trigger] a[j],
                        n,
                        join_dotted(go_name_scope(src, c, scope, m).push(n)),
                        if m { SymbolKind::Method } else { SymbolKind::Function },
                        c,
                    ) && go_fn_calls(src, ra, c, a[j].id);
                assert(b[j] == a[j]);
                match spec_child_by_field(c, "body"@) {
                    Some(x) => if 0 <= x < c.children@.len() {
                        lemma_relations_to_extends(ra, rb, a[j].id, RelationKind::Calls, go_calls_names(src, c.children@[x]));
                    },
                    None => {},
                }
            },
            None => {},
        }
    } else if k == "type_declaration"@ {
        lemma_go_listed_extends(src, a, b, c.children@, go_type_specs(src, c.children@, c.children@.len() as int), scope, None);
    } else if k == "const_declaration"@ || k == "var_declaration"@ {
        lemma_go_listed_extends(
            src,
            a,
            b,
            c.children@,
            go_value_specs(src, c.children@, c.children@.len() as int),
            scope,
            Some(if k == "const_declaration"@ { SymbolKind::Constant } else { SymbolKind::Variable }),
        );
    } else if k == "import_declaration"@ {
        lemma_relations_to_extends(ra, rb, owner, RelationKind::Imports, go_import_names(src, c.children@, c.children@.len() as int));
    }
}

/// The top-level declarations of a file.
fn extract_declarations<'s>(
    ctx: &VisitorContext,
    parent: &SyntaxNode,
    scope: &[&'s str],
    scope_id: SymbolId,
    out: &mut ParseOutput,
)
    requires
        visit_pre(*old(out), *ctx, *parent, scope_id),
    ensures
        visit_post(*old(out), *final(out), *ctx),
        new_from(old(out).symbols@, final(out).symbols@, *parent),
        forall|i: int|
            0 <= i < parent.children@.len() ==> go_decl_held(
                ctx.source.spec_bytes(),
                final(out).symbols@,
                final(out).relations@,
                #[trigger] parent.children@[i],
                str_views(scope@),
                scope_id,
            ),
{
    let ghost len = ctx.source.spec_bytes().len();
    let ghost src = ctx.source.spec_bytes();
    let ghost sv = str_views(scope@);
    let ghost start = out.symbols@;
    proof {
        lemma_all_children_spans_ok(*parent, len);
    }
    let sibs = &parent.children;
    let mut i: usize = 0;
    while i < sibs.len()
        invariant
            sibs == &parent.children,
            i <= sibs@.len(),
            len == ctx.source.spec_bytes().len(),
            all_spans_ok(sibs@, len),
            ctx_ok(*out, *ctx),
            new_from(old(out).symbols@, out.symbols@, *parent),
            rel_extends(old(out).relations@, out.relations@),
            extends(start, out.symbols@),
            start == old(out).symbols@,
            owner_ok(out.symbols@, scope_id),
            src == ctx.source.spec_bytes(),
            sv == str_views(scope@),
            forall|j: int| 0 <= j < i ==> go_decl_held(src, out.symbols@, out.relations@, #[trigger] sibs@[j], sv, scope_id),
        decreases sibs@.len() - i,
    {
        let child = &sibs[i];
        let ghost before = out.symbols@;
        let ghost rbefore = out.relations@;
        proof {
            lemma_go_kinds_distinct();
        }
        let k = child.kind.as_str();
        if str_eq(k, "function_declaration") {
            extract_function(ctx, sibs, i, scope, scope_id, false, out);
            proof {
                match spec_field_text(src, *child, "name"@) {
                    Some(n) => if n.len() > 0 {
                        let kk = before.len() as int;
                        assert(symbol_is(out.symbols@[kk], n, join_dotted(go_name_scope(src, *child, sv, false).push(n)), SymbolKind::Function, *child));
                        assert(go_fn_calls(src, out.relations@, *child, out.symbols@[kk].id));
                    },
                    None => {},
                }
            }
        } else if str_eq(k, "method_declaration") {
            extract_function(ctx, sibs, i, scope, scope_id, true, out);
            proof {
                match spec_field_text(src, *child, "name"@) {
                    Some(n) => if n.len() > 0 {
                        let kk = before.len() as int;
                        assert(symbol_is(out.symbols@[kk], n, join_dotted(go_name_scope(src, *child, sv, true).push(n)), SymbolKind::Method, *child));
                        assert(go_fn_calls(src, out.relations@, *child, out.symbols@[kk].id));
                    },
                    None => {},
                }
            }
        } else if str_eq(k, "type_declaration") {
            extract_type_decl(ctx, child, scope, scope_id, out);
            proof {
                let idx = go_type_specs(src, child.children@, child.children@.len() as int);
                assert forall|q: int| 0 <= q < idx.len() implies has_symbol(
                    out.symbols@,
                    field_or(src, child.children@[#[trigger] idx[q]], "name"@, Seq::empty()),
                    join_dotted(sv.push(field_or(src, child.children@[idx[q]], "name"@, Seq::empty()))),
                    go_listed_kind(None, child.children@[idx[q]]),
                    child.children@[idx[q]],
                ) by {
                    assert(symbol_is(
                        out.symbols@[before.len() + q],
                        field_or(src, child.children@[idx[q]], "name"@, Seq::empty()),
                        join_dotted(sv.push(field_or(src, child.children@[idx[q]], "name"@, Seq::empty()))),
                        go_listed_kind(None, child.children@[idx[q]]),
                        child.children@[idx[q]],
                    ));
                }
            }
        } else if str_eq(k, "const_declaration") || str_eq(k, "var_declaration") {
            extract_var_or_const(ctx, child, scope, scope_id, out);
            proof {
                let idx = go_value_specs(src, child.children@, child.children@.len() as int);
                assert forall|q: int| 0 <= q < idx.len() implies has_symbol(
                    out.symbols@,
                    field_or(src, child.children@[#[trigger] idx[q]], "name"@, Seq::empty()),
                    join_dotted(sv.push(field_or(src, child.children@[idx[q]], "name"@, Seq::empty()))),
                    go_listed_kind(Some(if child.kind@ == "const_declaration"@ { SymbolKind::Constant } else { SymbolKind::Variable }), child.children@[idx[q]]),
                    child.children@[idx[q]],
                ) by {
                    assert(symbol_is(
                        out.symbols@[before.len() + q],
                        field_or(src, child.children@[idx[q]], "name"@, Seq::empty()),
                        join_dotted(sv.push(field_or(src, child.children@[idx[q]], "name"@, Seq::empty()))),
                        go_listed_kind(Some(if child.kind@ == "const_declaration"@ { SymbolKind::Constant } else { SymbolKind::Variable }), child.children@[idx[q]]),
                        child.children@[idx[q]],
                    ));
                }
            }
        } else if str_eq(k, "import_declaration") {
            extract_import(ctx, child, scope_id, out);
            proof {
                lemma_appended_has(rbefore, out.relations@, scope_id, RelationKind::Imports, go_import_names(src, child.children@, child.children@.len() as int));
            }
        }
        proof {
            lemma_extends_owner(before, out.symbols@, scope_id);
            lemma_new_from_child(old(out).symbols@, before, out.symbols@, *parent, i as int);
            assert forall|j: int| 0 <= j < i + 1 implies go_decl_held(src, out.symbols@, out.relations@, #[trigger] sibs@[j], sv, scope_id) by {
                if j < i {
                    lemma_go_decl_extends(src, before, out.symbols@, rbefore, out.relations@, sibs@[j], sv, scope_id);
                } else {
                    assert(go_decl_held(src, out.symbols@, out.relations@, *child, sv, scope_id));
                }
            }
        }
        i = i + 1;
    }
}

/// The receiver type named from child `i` on: the cleaned type of the first
/// parameter declaration that has one.
pub open spec fn spec_receiver_type_from(src: Seq<u8>, ch: Seq<SyntaxNode>, i: int) -> Option<Seq<char>>
    decreases ch.len() - i,
{
    if i < 0 || i >= ch.len() {
        None
    } else if ch[i].kind@ == "parameter_declaration"@ && spec_field_text(src, ch[i], "type"@) is Some {
        Some(spec_trim(chars_before(trim_char_start(spec_field_text(src, ch[i], "type"@)->0, '*'), '[')))
    } else {
        spec_receiver_type_from(src, ch, i + 1)
    }
}

/// The scope a function's name is qualified in: for a method with a
/// receiver type, the scope and that type.
pub open spec fn go_name_scope(src: Seq<u8>, node: SyntaxNode, scope: Seq<Seq<char>>, is_method: bool) -> Seq<Seq<char>> {
    let rt = if is_method {
        match spec_child_by_field(node, "receiver"@) {
            Some(r) => match spec_receiver_type_from(src, node.children@[r].children@, 0) {
                Some(t) => t,
                None => Seq::empty(),
            },
            None => Seq::empty(),
        }
    } else {
        Seq::empty()
    };
    if rt.len() == 0 { scope } else { scope.push(rt) }
}

/// The type of a method's receiver, from its first parameter declaration
/// with a type.
fn extract_receiver_type(ctx: &VisitorContext, receiver: &SyntaxNode) -> (r: Option<String>)
    requires
        spans_ok(*receiver, ctx.source.spec_bytes().len()),
    ensures
        opt_string(r) == spec_receiver_type_from(ctx.source.spec_bytes(), receiver.children@, 0),
{
    let ghost len = ctx.source.spec_bytes().len();
    let mut i: usize = 0;
    while i < receiver.children.len()
        invariant
            i <= receiver.children@.len(),
            len == ctx.source.spec_bytes().len(),
            spans_ok(*receiver, len),
            spec_receiver_type_from(ctx.source.spec_bytes(), receiver.children@, 0) == spec_receiver_type_from(
                ctx.source.spec_bytes(),
                receiver.children@,
                i as int,
            ),
        decreases receiver.children@.len() - i,
    {
        let child = &receiver.children[i];
        if str_eq(child.kind.as_str(), "parameter_declaration") {
            proof {
                lemma_child_spans_ok(*receiver, len, i as int);
            }
            if let Some(t) = field_text(ctx, child, "type") {
                return Some(clean_receiver_type(t));
            }
        }
        i = i + 1;
    }
    None
}

/// A function, or a method scoped under its receiver type: its symbol,
/// containment and the calls in its body.
fn extract_function<'s>(
    ctx: &VisitorContext,
    sibs: &Vec<SyntaxNode>,
    idx: usize,
    scope: &[&'s str],
    scope_id: SymbolId,
    is_method: bool,
    out: &mut ParseOutput,
)
    requires
        sib_pre(*old(out), *ctx, sibs@, idx as int, scope_id),
    ensures
        visit_post(*old(out), *final(out), *ctx),
        new_from(old(out).symbols@, final(out).symbols@, sibs@[idx as int]),
        !(spec_field_text(ctx.source.spec_bytes(), sibs@[idx as int], "name"@) matches Some(n) && n.len() > 0) ==> *final(out) == *old(out),
        spec_field_text(ctx.source.spec_bytes(), sibs@[idx as int], "name"@) matches Some(n) ==> n.len() > 0 ==> {
            &&& added_named(
                old(out).symbols@,
                final(out).symbols@,
                n,
                go_name_scope(ctx.source.spec_bytes(), sibs@[idx as int], str_views(scope@), is_method),
                if is_method { SymbolKind::Method } else { SymbolKind::Function },
                sibs@[idx as int],
            )
            &&& final(out).symbols@[old(out).symbols@.len() as int].signature matches Some(sg) && sg@ == "func "@ + n + field_or(
                ctx.source.spec_bytes(),
                sibs@[idx as int],
                "parameters"@,
                "()"@,
            ) + field_after(ctx.source.spec_bytes(), sibs@[idx as int], "result"@, " "@)
        },
        spec_field_text(ctx.source.spec_bytes(), sibs@[idx as int], "name"@) matches Some(n) ==> n.len() > 0 ==> go_fn_calls(
            ctx.source.spec_bytes(),
            final(out).relations@,
            sibs@[idx as int],
            final(out).symbols@[old(out).symbols@.len() as int].id,
        ),
{
    let ghost len = ctx.source.spec_bytes().len();
    let node = &sibs[idx];
    let name = match field_text(ctx, node, "name") {
        Some(n) => n,
        None => return,
    };
    if name.unicode_len() == 0 {
        return;
    }
    let receiver_type = if is_method {
        match child_by_field(node, "receiver") {
            Some(r) => {
                proof {
                    lemma_child_spans_ok(*node, len, r as int);
                }
                match extract_receiver_type(ctx, &node.children[r]) {
                    Some(t) => t,
                    None => String::new(),
                }
            },
            None => String::new(),
        }
    } else {
        String::new()
    };
    let qname = if receiver_type.as_str().unicode_len() == 0 {
        qualified_name(scope, name)
    } else {
        let method_scope = crate::extract::extend_scope(scope, receiver_type.as_str());
        assert(str_views(method_scope@) =~= str_views(scope@).push(receiver_type@));
        qualified_name(method_scope.as_slice(), name)
    };
    assert(go_name_scope(ctx.source.spec_bytes(), *node, str_views(scope@), is_method) == if receiver_type@.len() == 0 {
        str_views(scope@)
    } else {
        str_views(scope@).push(receiver_type@)
    });
    let kind = if is_method {
        SymbolKind::Method
    } else {
        SymbolKind::Function
    };
    let signature = build_func_signature(ctx, node, name);
    let doc = extract_go_doc(ctx, sibs, idx);
    let ghost k = out.symbols@.len() as int;
    let sym_id = out.add_contained(ctx, node, name, qname, kind, Some(signature), doc, scope_id, node.start_row);
    assert(out.symbols@[k].id == sym_id);
    if let Some(body) = child_by_field(node, "body") {
        proof {
            lemma_child_spans_ok(*node, len, body as int);
        }
        let ghost r0 = out.relations@;
        extract_calls(ctx, &node.children[body], sym_id, out);
        proof {
            lemma_appended_has(r0, out.relations@, sym_id, RelationKind::Calls, go_calls_names(ctx.source.spec_bytes(), node.children@[body as int]));
        }
    }
}

/// The kind of symbol a type spec makes: a struct, an interface, or
/// otherwise a type alias.
pub open spec fn go_type_kind(c: SyntaxNode) -> SymbolKind {
    if spec_child_by_field(c, "type"@) matches Some(t) && c.children@[t].kind@ == "struct_type"@ {
        SymbolKind::Struct
    } else if spec_child_by_field(c, "type"@) matches Some(t) && c.children@[t].kind@ == "interface_type"@ {
        SymbolKind::Interface
    } else {
        SymbolKind::TypeAlias
    }
}

/// The indices of the type specs among `ch[..i]` that have a name.
pub open spec fn go_type_specs(src: Seq<u8>, ch: Seq<SyntaxNode>, i: int) -> Seq<int>
    decreases i,
{
    if i <= 0 || i > ch.len() {
        Seq::empty()
    } else if ch[i - 1].kind@ == "type_spec"@ && spec_field_text(src, ch[i - 1], "name"@) is Some {
        go_type_specs(src, ch, i - 1).push(i - 1)
    } else {
        go_type_specs(src, ch, i - 1)
    }
}

/// The type specs of a type declaration.
fn extract_type_decl<'s>(
    ctx: &VisitorContext,
    node: &SyntaxNode,
    scope: &[&'s str],
    scope_id: SymbolId,
    out: &mut ParseOutput,
)
    requires
        visit_pre(*old(out), *ctx, *node, scope_id),
    ensures
        visit_post(*old(out), *final(out), *ctx),
        new_from(old(out).symbols@, final(out).symbols@, *node),
        ({
            let src = ctx.source.spec_bytes();
            let idx = go_type_specs(src, node.children@, node.children@.len() as int);
            &&& final(out).symbols@.len() == old(out).symbols@.len() + idx.len()
            &&& forall|k: int|
                0 <= k < idx.len() ==> symbol_is(
                    #[trigger] final(out).symbols@[old(out).symbols@.len() + k],
                    field_or(src, node.children@[idx[k]], "name"@, Seq::empty()),
                    join_dotted(str_views(scope@).push(field_or(src, node.children@[idx[k]], "name"@, Seq::empty()))),
                    go_type_kind(node.children@[idx[k]]),
                    node.children@[idx[k]],
                )
        }),
{
    let ghost len = ctx.source.spec_bytes().len();
    let ghost src = ctx.source.spec_bytes();
    let ghost start = out.symbols@;
    proof {
        lemma_all_children_spans_ok(*node, len);
    }
    let sibs = &node.children;
    let mut i: usize = 0;
    while i < sibs.len()
        invariant
            sibs == &node.children,
            i <= sibs@.len(),
            len == ctx.source.spec_bytes().len(),
            src == ctx.source.spec_bytes(),
            start == old(out).symbols@,
            all_spans_ok(sibs@, len),
            ctx_ok(*out, *ctx),
            new_from(old(out).symbols@, out.symbols@, *node),
            rel_extends(old(out).relations@, out.relations@),
            extends(start, out.symbols@),
            start == old(out).symbols@,
            owner_ok(out.symbols@, scope_id),
            out.symbols@.len() == start.len() + go_type_specs(src, sibs@, i as int).len(),
            forall|k: int|
                0 <= k < go_type_specs(src, sibs@, i as int).len() ==> symbol_is(
                    #[trigger] out.symbols@[start.len() + k],
                    field_or(src, sibs@[go_type_specs(src, sibs@, i as int)[k]], "name"@, Seq::empty()),
                    join_dotted(str_views(scope@).push(field_or(src, sibs@[go_type_specs(src, sibs@, i as int)[k]], "name"@, Seq::empty()))),
                    go_type_kind(sibs@[go_type_specs(src, sibs@, i as int)[k]]),
                    sibs@[go_type_specs(src, sibs@, i as int)[k]],
                ),
        decreases sibs@.len() - i,
    {
        let ghost before = out.symbols@;
        let ghost idx = go_type_specs(src, sibs@, i as int);
        if str_eq(sibs[i].kind.as_str(), "type_spec") {
            extract_type_spec(ctx, sibs, i, scope, scope_id, out);
            proof {
                if spec_field_text(src, sibs@[i as int], "name"@) is Some {
                    assert(go_type_specs(src, sibs@, i + 1) == idx.push(i as int));
                    assert forall|k: int| 0 <= k < idx.push(i as int).len() implies symbol_is(
                        #[trigger] out.symbols@[start.len() + k],
                        field_or(src, sibs@[idx.push(i as int)[k]], "name"@, Seq::empty()),
                        join_dotted(str_views(scope@).push(field_or(src, sibs@[idx.push(i as int)[k]], "name"@, Seq::empty()))),
                        go_type_kind(sibs@[idx.push(i as int)[k]]),
                        sibs@[idx.push(i as int)[k]],
                    ) by {
                        if k < idx.len() {
                            assert(out.symbols@[start.len() + k] == before[start.len() + k]);
                        }
                    }
                }
            }
        }
        proof {
            lemma_extends_owner(before, out.symbols@, scope_id);
            lemma_new_from_child(old(out).symbols@, before, out.symbols@, *node, i as int);
        }
        i = i + 1;
    }
}

/// A named type: a struct, an interface, or otherwise a type alias.
fn extract_type_spec<'s>(
    ctx: &VisitorContext,
    sibs: &Vec<SyntaxNode>,
    idx: usize,
    scope: &[&'s str],
    scope_id: SymbolId,
    out: &mut ParseOutput,
)
    requires
        sib_pre(*old(out), *ctx, sibs@, idx as int, scope_id),
    ensures
        visit_post(*old(out), *final(out), *ctx),
        new_from(old(out).symbols@, final(out).symbols@, sibs@[idx as int]),
        spec_field_text(ctx.source.spec_bytes(), sibs@[idx as int], "name"@) is None ==> *final(out) == *old(out),
        spec_field_text(ctx.source.spec_bytes(), sibs@[idx as int], "name"@) matches Some(n) ==> {
            &&& added_named(old(out).symbols@, final(out).symbols@, n, str_views(scope@), go_type_kind(sibs@[idx as int]), sibs@[idx as int])
            &&& final(out).symbols@.len() == old(out).symbols@.len() + 1
            &&& final(out).symbols@[old(out).symbols@.len() as int].signature matches Some(sg) && sg@ == "type "@ + n + (if go_type_kind(sibs@[idx as int]) == SymbolKind::Struct {
                " struct"@
            } else if go_type_kind(sibs@[idx as int]) == SymbolKind::Interface {
                " interface"@
            } else {
                Seq::<char>::empty()
            })
        },
{
    let node = &sibs[idx];
    let name = match field_text(ctx, node, "name") {
        Some(n) => n,
        None => return,
    };
    let kind = match child_by_field(node, "type") {
        Some(t) => if str_eq(node.children[t].kind.as_str(), "struct_type") {
            SymbolKind::Struct
        } else if str_eq(node.children[t].kind.as_str(), "interface_type") {
            SymbolKind::Interface
        } else {
            SymbolKind::TypeAlias
        },
        None => SymbolKind::TypeAlias,
    };
    let qname = qualified_name(scope, name);
    let mut sig = str_to_string("type ");
    string_push_str(&mut sig, name);
    match kind {
        SymbolKind::Struct => string_push_str(&mut sig, " struct"),
        SymbolKind::Interface => string_push_str(&mut sig, " interface"),
        _ => {},
    }
    let doc = extract_go_doc(ctx, sibs, idx);
    let sym_id = out.add_contained(ctx, node, name, qname, kind, Some(sig), doc, scope_id, node.start_row);
}

/// A constant or variable spec whose name is neither empty nor `_`.
pub open spec fn go_value_named(src: Seq<u8>, c: SyntaxNode) -> bool {
    &&& (c.kind@ == "const_spec"@ || c.kind@ == "var_spec"@)
    &&& match spec_field_text(src, c, "name"@) {
        Some(t) => t.len() > 0 && t != "_"@,
        None => false,
    }
}

/// The indices of the named constant or variable specs among `ch[..i]`.
pub open spec fn go_value_specs(src: Seq<u8>, ch: Seq<SyntaxNode>, i: int) -> Seq<int>
    decreases i,
{
    if i <= 0 || i > ch.len() {
        Seq::empty()
    } else if go_value_named(src, ch[i - 1]) {
        go_value_specs(src, ch, i - 1).push(i - 1)
    } else {
        go_value_specs(src, ch, i - 1)
    }
}

/// The named constants or variables of a declaration, skipping `_`.
fn extract_var_or_const<'s>(
    ctx: &VisitorContext,
    node: &SyntaxNode,
    scope: &[&'s str],
    scope_id: SymbolId,
    out: &mut ParseOutput,
)
    requires
        visit_pre(*old(out), *ctx, *node, scope_id),
    ensures
        visit_post(*old(out), *final(out), *ctx),
        new_from(old(out).symbols@, final(out).symbols@, *node),
        children_added(
            ctx.source.spec_bytes(),
            old(out).symbols@,
            final(out).symbols@,
            node.children@,
            go_value_specs(ctx.source.spec_bytes(), node.children@, node.children@.len() as int),
            str_views(scope@),
            if node.kind@ == "const_declaration"@ { SymbolKind::Constant } else { SymbolKind::Variable },
        ),
{
    let ghost len = ctx.source.spec_bytes().len();
    let ghost src = ctx.source.spec_bytes();
    let ghost start = out.symbols@;
    let is_const = str_eq(node.kind.as_str(), "const_declaration");
    let ghost gkind = if node.kind@ == "const_declaration"@ { SymbolKind::Constant } else { SymbolKind::Variable };
    assert(start.take(start.len() as int) =~= start);
    let mut i: usize = 0;
    while i < node.children.len()
        invariant
            i <= node.children@.len(),
            len == ctx.source.spec_bytes().len(),
            src == ctx.source.spec_bytes(),
            start == old(out).symbols@,
            is_const == (node.kind@ == "const_declaration"@),
            gkind == (if node.kind@ == "const_declaration"@ { SymbolKind::Constant } else { SymbolKind::Variable }),
            spans_ok(*node, len),
            ctx_ok(*out, *ctx),
            new_from(old(out).symbols@, out.symbols@, *node),
            rel_extends(old(out).relations@, out.relations@),
            extends(start, out.symbols@),
            start == old(out).symbols@,
            owner_ok(out.symbols@, scope_id),
            children_added(src, start, out.symbols@, node.children@, go_value_specs(src, node.children@, i as int), str_views(scope@), gkind),
        decreases node.children@.len() - i,
    {
        let child = &node.children[i];
        proof {
            lemma_child_spans_ok(*node, len, i as int);
        }
        let ghost before = out.symbols@;
        if str_eq(child.kind.as_str(), "const_spec") || str_eq(child.kind.as_str(), "var_spec") {
            if let Some(name) = field_text(ctx, child, "name") {
                if name.unicode_len() > 0 && !str_eq(name, "_") {
                    let kind = if is_const {
                        SymbolKind::Constant
                    } else {
                        SymbolKind::Variable
                    };
                    let qname = qualified_name(scope, name);
                    let sym_id = out.add_contained(ctx, child, name, qname, kind, None, None, scope_id, child.start_row);
                    proof {
                        let idx = go_value_specs(src, node.children@, i as int);
                        assert(go_value_specs(src, node.children@, i + 1) == idx.push(i as int));
                        assert(out.symbols@.take(start.len() as int) =~= before.take(start.len() as int));
                        assert forall|k: int| 0 <= k < idx.push(i as int).len() implies symbol_is(
                            #[trigger] out.symbols@[start.len() + k],
                            field_or(src, node.children@[idx.push(i as int)[k]], "name"@, Seq::empty()),
                            join_dotted(str_views(scope@).push(field_or(src, node.children@[idx.push(i as int)[k]], "name"@, Seq::empty()))),
                            gkind,
                            node.children@[idx.push(i as int)[k]],
                        ) by {
                            if k < idx.len() {
                                assert(out.symbols@[start.len() + k] == before[start.len() + k]);
                            }
                        }
                    }
                }
            }
        }
        proof {
            lemma_extends_owner(before, out.symbols@, scope_id);
            lemma_new_from_child(old(out).symbols@, before, out.symbols@, *node, i as int);
        }
        i = i + 1;
    }
}

/// The canonical path an import spec names, when its unquoted path is not empty.
pub open spec fn go_spec_import_names(src: Seq<u8>, n: SyntaxNode) -> Seq<Seq<char>> {
    match spec_field_text(src, n, "path"@) {
        Some(p) => if trim_char_end(trim_char_start(p, '"'), '"').len() > 0 {
            seq![spec_normalize(trim_char_end(trim_char_start(p, '"'), '"'), Language::Go)]
        } else {
            Seq::empty()
        },
        None => Seq::empty(),
    }
}

/// The paths the import specs among `ch[..j]` name, in order.
pub open spec fn go_specs_names(src: Seq<u8>, ch: Seq<SyntaxNode>, j: int) -> Seq<Seq<char>>
    decreases j,
{
    if j <= 0 || j > ch.len() {
        Seq::empty()
    } else {
        go_specs_names(src, ch, j - 1) + if ch[j - 1].kind@ == "import_spec"@ {
            go_spec_import_names(src, ch[j - 1])
        } else {
            Seq::empty()
        }
    }
}

/// The paths an import declaration's children `ch[..i]` name, in order:
/// those of each spec list and of each spec standing alone.
pub open spec fn go_import_names(src: Seq<u8>, ch: Seq<SyntaxNode>, i: int) -> Seq<Seq<char>>
    decreases i,
{
    if i <= 0 || i > ch.len() {
        Seq::empty()
    } else {
        go_import_names(src, ch, i - 1) + if ch[i - 1].kind@ == "import_spec_list"@ {
            go_specs_names(src, ch[i - 1].children@, ch[i - 1].children@.len() as int)
        } else if ch[i - 1].kind@ == "import_spec"@ {
            go_spec_import_names(src, ch[i - 1])
        } else {
            Seq::empty()
        }
    }
}

/// The import specs of an import declaration, in a list or alone.
fn extract_import(ctx: &VisitorContext, node: &SyntaxNode, scope_id: SymbolId, out: &mut ParseOutput)
    requires
        visit_pre(*old(out), *ctx, *node, scope_id),
    ensures
        visit_post(*old(out), *final(out), *ctx),
        new_from(old(out).symbols@, final(out).symbols@, *node),
        final(out).symbols@ == old(out).symbols@,
        appended_to_phantoms(
            old(out).relations@,
            final(out).relations@,
            scope_id,
            RelationKind::Imports,
            go_import_names(ctx.source.spec_bytes(), node.children@, node.children@.len() as int),
        ),
{
    let ghost len = ctx.source.spec_bytes().len();
    let ghost src = ctx.source.spec_bytes();
    proof {
        lemma_append_none(out.relations@, scope_id, RelationKind::Imports);
    }
    let mut i: usize = 0;
    while i < node.children.len()
        invariant
            i <= node.children@.len(),
            len == ctx.source.spec_bytes().len(),
            src == ctx.source.spec_bytes(),
            spans_ok(*node, len),
            ctx_ok(*out, *ctx),
            new_from(old(out).symbols@, out.symbols@, *node),
            rel_extends(old(out).relations@, out.relations@),
            out.symbols@ == old(out).symbols@,
            owner_ok(out.symbols@, scope_id),
            appended_to_phantoms(old(out).relations@, out.relations@, scope_id, RelationKind::Imports, go_import_names(src, node.children@, i as int)),
        decreases node.children@.len() - i,
    {
        let child = &node.children[i];
        let ghost before = out.relations@;
        proof {
            lemma_child_spans_ok(*node, len, i as int);
            lemma_append_none(out.relations@, scope_id, RelationKind::Imports);
        }
        if str_eq(child.kind.as_str(), "import_spec_list") {
            let mut j: usize = 0;
            while j < child.children.len()
                invariant
                    j <= child.children@.len(),
                    len == ctx.source.spec_bytes().len(),
                    src == ctx.source.spec_bytes(),
                    spans_ok(*child, len),
                    ctx_ok(*out, *ctx),
                    new_from(old(out).symbols@, out.symbols@, *node),
                    rel_extends(old(out).relations@, out.relations@),
                    out.symbols@ == old(out).symbols@,
                    owner_ok(out.symbols@, scope_id),
                    appended_to_phantoms(before, out.relations@, scope_id, RelationKind::Imports, go_specs_names(src, child.children@, j as int)),
                decreases child.children@.len() - j,
            {
                let ghost mid = out.relations@;
                proof {
                    lemma_child_spans_ok(*child, len, j as int);
                    lemma_append_none(out.relations@, scope_id, RelationKind::Imports);
                }
                if str_eq(child.children[j].kind.as_str(), "import_spec") {
                    extract_import_spec(ctx, &child.children[j], scope_id, out);
                }
                proof {
                    lemma_append_all(
                        before,
                        mid,
                        out.relations@,
                        scope_id,
                        RelationKind::Imports,
                        go_specs_names(src, child.children@, j as int),
                        if child.children@[j as int].kind@ == "import_spec"@ {
                            go_spec_import_names(src, child.children@[j as int])
                        } else {
                            Seq::empty()
                        },
                    );
                }
                j = j + 1;
            }
        } else if str_eq(child.kind.as_str(), "import_spec") {
            extract_import_spec(ctx, child, scope_id, out);
        }
        proof {
            lemma_append_all(
                old(out).relations@,
                before,
                out.relations@,
                scope_id,
                RelationKind::Imports,
                go_import_names(src, node.children@, i as int),
                if child.kind@ == "import_spec_list"@ {
                    go_specs_names(src, child.children@, child.children@.len() as int)
                } else if child.kind@ == "import_spec"@ {
                    go_spec_import_names(src, *child)
                } else {
                    Seq::empty()
                },
            );
        }
        i = i + 1;
    }
}

/// An import of a spec's path, unquoted and in canonical form.
fn extract_import_spec(ctx: &VisitorContext, node: &SyntaxNode, scope_id: SymbolId, out: &mut ParseOutput)
    requires
        visit_pre(*old(out), *ctx, *node, scope_id),
    ensures
        visit_post(*old(out), *final(out), *ctx),
        new_from(old(out).symbols@, final(out).symbols@, *node),
        final(out).symbols@ == old(out).symbols@,
        spec_field_text(ctx.source.spec_bytes(), *node, "path"@) matches Some(p) ==> (trim_char_end(trim_char_start(p, '"'), '"').len() > 0 ==> pushed_relation(
            old(out).relations@,
            final(out).relations@,
            scope_id,
            SymbolId(phantom_id(spec_normalize(trim_char_end(trim_char_start(p, '"'), '"'), Language::Go))),
            RelationKind::Imports,
        )),
        !(spec_field_text(ctx.source.spec_bytes(), *node, "path"@) matches Some(p) && trim_char_end(trim_char_start(p, '"'), '"').len() > 0) ==> *final(out) == *old(out),
        appended_to_phantoms(
            old(out).relations@,
            final(out).relations@,
            scope_id,
            RelationKind::Imports,
            go_spec_import_names(ctx.source.spec_bytes(), *node),
        ),
{
    proof {
        lemma_append_none(out.relations@, scope_id, RelationKind::Imports);
    }
    if let Some(path_text) = field_text(ctx, node, "path") {
        let import_path = trim_double_quotes(path_text);
        if import_path.as_str().unicode_len() > 0 {
            let canonical = QualifiedName::normalize(import_path.as_str(), Language::Go);
            let target_id = phantom_of(canonical.as_str());
            let ghost o = out.relations@;
            out.add_relation(ctx, scope_id, target_id, RelationKind::Imports, node.start_row);
            proof {
                lemma_append_phantom(o, o, out.relations@, scope_id, RelationKind::Imports, Seq::empty(), canonical@);
                assert(Seq::<Seq<char>>::empty().push(canonical@) =~= go_spec_import_names(ctx.source.spec_bytes(), *node));
            }
        }
    }
}

/// The callee a child names itself: a call expression's `function` field, when not empty.
pub open spec fn go_calls_here(src: Seq<u8>, c: SyntaxNode) -> Seq<Seq<char>> {
    if c.kind@ == "call_expression"@ && spec_field_text(src, c, "function"@) is Some && spec_field_text(
        src,
        c,
        "function"@,
    )->0.len() > 0 {
        seq![spec_field_text(src, c, "function"@)->0]
    } else {
        Seq::empty()
    }
}

/// The callee names under a node, in traversal order.
pub open spec fn go_calls_names(src: Seq<u8>, node: SyntaxNode) -> Seq<Seq<char>>
    decreases node, node.children@.len() + 1,
{
    go_calls_names_upto(src, node, node.children@.len() as int)
}

/// `go_calls_names` over the first `n` children.
pub open spec fn go_calls_names_upto(src: Seq<u8>, node: SyntaxNode, n: int) -> Seq<Seq<char>>
    decreases node, n,
{
    if n <= 0 || n > node.children@.len() {
        Seq::empty()
    } else {
        let c = node.children@[n - 1];
        go_calls_names_upto(src, node, n - 1) + go_calls_here(src, c) + if c.kind@ != "func_literal"@ {
            go_calls_names(src, c)
        } else {
            Seq::empty()
        }
    }
}

/// Call relations for the calls under a node, not looking into function
/// literals.
fn extract_calls(ctx: &VisitorContext, node: &SyntaxNode, caller_id: SymbolId, out: &mut ParseOutput)
    requires
        visit_pre(*old(out), *ctx, *node, caller_id),
    ensures
        visit_post(*old(out), *final(out), *ctx),
        new_from(old(out).symbols@, final(out).symbols@, *node),
        final(out).symbols@ == old(out).symbols@,
        appended_to_phantoms(
            old(out).relations@,
            final(out).relations@,
            caller_id,
            RelationKind::Calls,
            go_calls_names(ctx.source.spec_bytes(), *node),
        ),
    decreases *node,
{
    let ghost len = ctx.source.spec_bytes().len();
    proof {
        lemma_append_none(old(out).relations@, caller_id, RelationKind::Calls);
    }
    let mut i: usize = 0;
    while i < node.children.len()
        invariant
            i <= node.children@.len(),
            len == ctx.source.spec_bytes().len(),
            spans_ok(*node, len),
            ctx_ok(*out, *ctx),
            new_from(old(out).symbols@, out.symbols@, *node),
            rel_extends(old(out).relations@, out.relations@),
            out.symbols@ == old(out).symbols@,
            owner_ok(out.symbols@, caller_id),
            appended_to_phantoms(
                old(out).relations@,
                out.relations@,
                caller_id,
                RelationKind::Calls,
                go_calls_names_upto(ctx.source.spec_bytes(), *node, i as int),
            ),
        decreases node.children@.len() - i,
    {
        let child = &node.children[i];
        proof {
            lemma_child_spans_ok(*node, len, i as int);
        }
        let ghost mid = out.relations@;
        let ghost pre = go_calls_names_upto(ctx.source.spec_bytes(), *node, i as int);
        if str_eq(child.kind.as_str(), "call_expression") {
            if let Some(callee) = field_text(ctx, child, "function") {
                if callee.unicode_len() > 0 {
                    let target_id = phantom_of(callee);
                    out.add_relation(ctx, caller_id, target_id, RelationKind::Calls, child.start_row);
                    proof {
                        lemma_append_phantom(old(out).relations@, mid, out.relations@, caller_id, RelationKind::Calls, pre, callee@);
                        assert(pre.push(callee@) =~= pre + seq![callee@]);
                    }
                }
            }
        }
        let ghost here = go_calls_here(ctx.source.spec_bytes(), *child);
        proof {
            if here.len() == 0 {
                assert(pre + here =~= pre);
            }
        }
        assert(appended_to_phantoms(old(out).relations@, out.relations@, caller_id, RelationKind::Calls, pre + here));
        let ghost mid2 = out.relations@;
        if !str_eq(child.kind.as_str(), "func_literal") {
            extract_calls(ctx, child, caller_id, out);
            proof {
                lemma_append_all(
                    old(out).relations@,
                    mid2,
                    out.relations@,
                    caller_id,
                    RelationKind::Calls,
                    pre + here,
                    go_calls_names(ctx.source.spec_bytes(), *child),
                );
            }
        } else {
            assert(pre + here + Seq::<Seq<char>>::empty() =~= pre + here);
        }
        i = i + 1;
    }
}

} // verus!
