//! The local gates: a candidate text must lex and parse (the grammar gate), then compile
//! to first-order logic without error (the semantic gate).

use vstd::prelude::*;
use crate::compile::{
    bridi_terms, error_pushed, free_sub, giha_clause_free, no_connected, open_vars, prenex_kept, sentence_compiled,
    sentence_tag_beyond, sentence_tag_message, simple_tag_beyond, spec_budget_message, spec_selbri_arity,
    spec_tag_beyond_message, spec_tag_of, tag_beyond, tag_beyond_reported, SemanticCompiler,
};
use crate::form::LogicalForm;
use crate::interner::interned;
use crate::logic::{flat_shape, flatten, lemma_flat_shape_extend, LogicBuffer, LogicNode};
use crate::ast::{ast_wf, Ast, Sentence, Sumti};
use crate::parser::{has_unknown_word, parse_checked, parsed_from, prefix_of, prenex_logic};
use crate::lexer::{spec_classify, spec_words};
use crate::text::{kb_lines, spec_kb_lines};

verus! {

/// Which gate refused a candidate.
#[derive(Clone, Copy, PartialEq, Eq, Debug, Structural)]
pub enum GateKind {
    /// The text does not lex or parse.
    Syntax,
    /// The text parses but does not compile to well-formed logic.
    Semantic,
}

/// Why a candidate was refused.
#[derive(Debug)]
pub struct GateError {
    pub kind: GateKind,
    pub detail: String,
}

impl GateError {
    /// The error as one line: which gate failed, then the detail.
    pub fn message(&self) -> (s: String)
        ensures
            s@ == (match self.kind {
                GateKind::Syntax => "[Syntax Error] "@,
                GateKind::Semantic => "[Semantic Error] "@,
            }) + self.detail@,
    {
        let mut s = match self.kind {
            GateKind::Syntax => "[Syntax Error] ".to_owned(),
            GateKind::Semantic => "[Semantic Error] ".to_owned(),
        };
        s.append(self.detail.as_str());
        s
    }

    /// Which gate failed, by name: `gerna` for the grammar, `smuni` for the
    /// semantics.
    pub fn gate(&self) -> (g: &'static str)
        ensures
            g@ == match self.kind {
                GateKind::Syntax => "gerna"@,
                GateKind::Semantic => "smuni"@,
            },
    {
        match self.kind {
            GateKind::Syntax => "gerna",
            GateKind::Semantic => "smuni",
        }
    }
}

/// Run both local gates on one text: parse it, compile every sentence, and hand out the
/// compiled formulas as a flat buffer with one root per top-level sentence.
pub fn local_gates(text: &str) -> (r: Result<LogicBuffer, GateError>)
    ensures
        r matches Ok(buf) ==> forall|k: int|
            0 <= k < buf.roots@.len() ==> #[trigger] buf.roots@[k] < buf.nodes@.len(),
        r matches Ok(buf) ==> exists|ast: Ast| #[trigger] parsed_from(text@, ast) && buffer_compiles(buf, ast),
        r matches Err(e) && e.kind == GateKind::Semantic ==> exists|ast: Ast| #[trigger] parsed_from(text@, ast),
        has_unknown_word(text@) ==> (r matches Err(e) && e.kind == GateKind::Syntax && {
            let w = spec_words(text@);
            exists|p: int| {
                &&& 0 <= p < w.len()
                &&& #[trigger] spec_classify(w[p]) is None
                &&& forall|j: int| 0 <= j < p ==> (#[trigger] spec_classify(w[j])) is Some
                &&& e.detail@ == "unknown word `"@ + w[p] + "`"@
            }
        }),
        (forall|ast: Ast|
            #[trigger] parsed_from(text@, ast) ==> exists|k: int, j: int|
                0 <= k < ast.roots@.len() && #[trigger] sentence_tag_beyond(
                    ast.selbris@,
                    ast.sumtis@,
                    ast.sentences@,
                    ast.roots@[k] as int,
                    j,
                )) ==> r is Err,
{
    match parse_checked(text) {
        Ok(ast) => compile_from_ast(ast),
        Err(e) => Err(GateError { kind: GateKind::Syntax, detail: e.message }),
    }
}

/// The formulas `forms` compile the top-level sentences of `ast`, one per sentence, in
/// order, as [`sentence_compiled`] says over the sumti buffer `sumtis` (the parsed one
/// with the nodes that distributing connected sumti adds), and the roots of `buf` spell
/// them, names read through `names`.
pub open spec fn forms_compile(
    buf: LogicBuffer,
    ast: Ast,
    names: Seq<Seq<char>>,
    sumtis: Seq<Sumti>,
    forms: Seq<LogicalForm>,
) -> bool {
    &&& forms.len() == ast.roots@.len()
    &&& prefix_of(ast.sumtis@, sumtis)
    &&& ast_wf(ast.selbris@, sumtis, ast.sentences@)
    &&& forall|k: int|
        0 <= k < forms.len() ==> {
            &&& #[trigger] flat_shape(buf.nodes@, names, buf.roots@[k] as int, forms[k])
            &&& sentence_compiled(
                names,
                ast.selbris@,
                sumtis,
                ast.sentences@,
                None,
                ast.roots@[k] as int,
                forms[k],
            )
        }
    &&& prenex_logic(ast.sentences@) ==> forall|k: int|
        0 <= k < forms.len() ==> #[trigger] prenex_kept(names, ast.sentences@, ast.roots@[k] as int, forms[k])
    &&& giha_clause_free(ast.sumtis@, ast.sentences@) ==> forall|k: int|
        0 <= k < forms.len() ==> free_sub(#[trigger] forms[k], Set::empty())
}

/// The buffer `buf` holds one root per top-level sentence of `ast`, in order, each
/// spelling, with the names of some interner, a formula that compiles its sentence.
pub open spec fn buffer_compiles(buf: LogicBuffer, ast: Ast) -> bool {
    &&& buf.roots@.len() == ast.roots@.len()
    &&& exists|names: Seq<Seq<char>>, sumtis: Seq<Sumti>, forms: Seq<LogicalForm>|
        #[trigger] forms_compile(buf, ast, names, sumtis, forms)
}

/// Errors joined into one detail, in order, separated by `; `.
pub open spec fn spec_join_errors(errs: Seq<String>) -> Seq<char>
    decreases errs.len(),
{
    if errs.len() == 0 {
        Seq::empty()
    } else if errs.len() == 1 {
        errs[0]@
    } else {
        spec_join_errors(errs.drop_last()) + "; "@ + errs.last()@
    }
}

/// `t` occurs in `s`.
pub open spec fn contains_text(s: Seq<char>, t: Seq<char>) -> bool {
    exists|i: int| 0 <= i && i + t.len() <= s.len() && #[trigger] s.subrange(i, i + t.len()) == t
}

/// Each error occurs in the joined detail.
pub proof fn lemma_join_contains(errs: Seq<String>, j: int)
    requires
        0 <= j < errs.len(),
    ensures
        contains_text(spec_join_errors(errs), errs[j]@),
    decreases errs.len(),
{
    let t = errs[j]@;
    let whole = spec_join_errors(errs);
    if errs.len() == 1 {
        let i: int = 0;
        assert(whole.subrange(i, i + t.len()) =~= t);
    } else if j == errs.len() - 1 {
        let pre = spec_join_errors(errs.drop_last()) + "; "@;
        assert(whole == pre + t);
        let i: int = pre.len() as int;
        assert(whole.subrange(i, i + t.len()) =~= t);
    } else {
        lemma_join_contains(errs.drop_last(), j);
        assert(errs.drop_last()[j] == errs[j]);
        let a = spec_join_errors(errs.drop_last());
        let i = choose|i: int| 0 <= i && i + t.len() <= a.len() && #[trigger] a.subrange(i, i + t.len()) == t;
        assert(whole == a + ("; "@ + errs.last()@));
        assert(whole.subrange(i, i + t.len()) =~= a.subrange(i, i + t.len()));
    }
}

/// A message recorded among the errors occurs in their joined detail.
pub proof fn lemma_pushed_in_join(before: Seq<String>, errs: Seq<String>, msg: Seq<char>)
    requires
        error_pushed(before, errs, msg),
    ensures
        contains_text(spec_join_errors(errs), msg),
{
    let i = choose|i: int| before.len() <= i < errs.len() && (#[trigger] errs[i])@ == msg;
    lemma_join_contains(errs, i);
}

/// The semantic gate on a parsed text: compile every top-level sentence and hand out the
/// formulas as a flat buffer, one root per sentence; every error of the compiler, in
/// order, when there is one.
pub fn compile_from_ast(ast: Ast) -> (r: Result<LogicBuffer, GateError>)
    requires
        ast_wf(ast.selbris@, ast.sumtis@, ast.sentences@),
        forall|k: int| 0 <= k < ast.roots@.len() ==> #[trigger] ast.roots@[k] < ast.sentences@.len(),
    ensures
        r matches Ok(buf) ==> forall|k: int|
            0 <= k < buf.roots@.len() ==> #[trigger] buf.roots@[k] < buf.nodes@.len(),
        r matches Ok(buf) ==> buffer_compiles(buf, ast),
        r matches Err(e) ==> e.kind == GateKind::Semantic,
        (exists|k: int|
            0 <= k < ast.roots@.len() && #[trigger] simple_tag_beyond(
                ast.selbris@,
                ast.sumtis@,
                ast.sentences@,
                ast.roots@[k] as int,
            )) ==> r is Err,
        forall|k: int, j: int|
            0 <= k < ast.roots@.len() && #[trigger] sentence_tag_beyond(
                ast.selbris@,
                ast.sumtis@,
                ast.sentences@,
                ast.roots@[k] as int,
                j,
            ) ==> (r matches Err(e) && (contains_text(
                e.detail@,
                sentence_tag_message(ast.selbris@, ast.sumtis@, ast.sentences@, ast.roots@[k] as int, j),
            ) || contains_text(e.detail@, spec_budget_message()))),
{
    let ghost ast0 = ast;
    let mut parsed = ast;
    let mut compiler = SemanticCompiler::new();
    let ghost compiler0 = compiler;
    let forms = compiler.compile_roots(&mut parsed);
    if compiler.errors.len() > 0 {
        let mut detail = compiler.errors[0].clone();
        let mut i: usize = 1;
        assert(compiler.errors@.subrange(0, 1).drop_last() =~= Seq::<String>::empty());
        while i < compiler.errors.len()
            invariant
                1 <= i <= compiler.errors@.len(),
                detail@ == spec_join_errors(compiler.errors@.subrange(0, i as int)),
            decreases compiler.errors@.len() - i,
        {
            detail.append("; ");
            detail.append(compiler.errors[i].as_str());
            assert(compiler.errors@.subrange(0, i + 1).drop_last() =~= compiler.errors@.subrange(0, i as int));
            i = i + 1;
        }
        proof {
            assert(compiler.errors@.subrange(0, i as int) =~= compiler.errors@);
            assert forall|k: int, j: int|
                0 <= k < ast0.roots@.len() && #[trigger] sentence_tag_beyond(
                    ast0.selbris@,
                    ast0.sumtis@,
                    ast0.sentences@,
                    ast0.roots@[k] as int,
                    j,
                ) implies (contains_text(
                    detail@,
                    sentence_tag_message(ast0.selbris@, ast0.sumtis@, ast0.sentences@, ast0.roots@[k] as int, j),
                ) || contains_text(detail@, spec_budget_message())) by {
                if let Sentence::Simple(b) = ast0.sentences@[ast0.roots@[k] as int] {
                    assert(tag_beyond_reported(compiler0.errors@, compiler.errors@, ast0.selbris@, ast0.sumtis@, b));
                    let m = spec_tag_beyond_message(
                        spec_tag_of(ast0.sumtis@, bridi_terms(b)[j] as int),
                        spec_selbri_arity(ast0.selbris@, b.relation as int),
                    );
                    assert(tag_beyond(ast0.sumtis@, bridi_terms(b)[j] as int, spec_selbri_arity(ast0.selbris@, b.relation as int)));
                    if error_pushed(compiler0.errors@, compiler.errors@, m) {
                        lemma_pushed_in_join(compiler0.errors@, compiler.errors@, m);
                    } else {
                        lemma_pushed_in_join(compiler0.errors@, compiler.errors@, spec_budget_message());
                    }
                }
            }
        }
        return Err(GateError { kind: GateKind::Semantic, detail });
    }
    proof {
        assert forall|k: int, j: int| 0 <= k < ast0.roots@.len() implies !#[trigger] sentence_tag_beyond(
            ast0.selbris@,
            ast0.sumtis@,
            ast0.sentences@,
            ast0.roots@[k] as int,
            j,
        ) by {
            if let Sentence::Simple(b) = ast0.sentences@[ast0.roots@[k] as int] {
                if sentence_tag_beyond(ast0.selbris@, ast0.sumtis@, ast0.sentences@, ast0.roots@[k] as int, j) {
                    assert(tag_beyond_reported(compiler0.errors@, compiler.errors@, ast0.selbris@, ast0.sumtis@, b));
                    assert(tag_beyond(
                        ast0.sumtis@,
                        bridi_terms(b)[j] as int,
                        spec_selbri_arity(ast0.selbris@, b.relation as int),
                    ));
                }
            }
        }
    }
    let ghost names = interned(compiler.interner);
    let ghost u2 = parsed.sumtis@;
    assert(prenex_logic(ast0.sentences@) ==> forall|k: int|
        0 <= k < forms@.len() ==> #[trigger] prenex_kept(names, ast0.sentences@, ast0.roots@[k] as int, forms@[k]));
    assert(open_vars(compiler0) =~= Set::<u32>::empty());
    assert(giha_clause_free(ast0.sumtis@, ast0.sentences@) ==> forall|k: int|
        0 <= k < forms@.len() ==> free_sub(#[trigger] forms@[k], Set::empty()));
    assert(forall|k: int| 0 <= k < forms@.len() ==> #[trigger] sentence_compiled(
        names,
        ast0.selbris@,
        u2,
        ast0.sentences@,
        None,
        ast0.roots@[k] as int,
        forms@[k],
    ));
    let mut nodes: Vec<LogicNode> = Vec::new();
    let mut roots: Vec<u32> = Vec::new();
    let mut i: usize = 0;
    while i < forms.len()
        invariant
            i <= forms@.len(),
            roots@.len() == i,
            names == interned(compiler.interner),
            forall|k: int| 0 <= k < roots@.len() ==> #[trigger] roots@[k] < nodes@.len(),
            forall|k: int| 0 <= k < i ==> #[trigger] flat_shape(nodes@, names, roots@[k] as int, forms@[k]),
            forall|k: int| 0 <= k < forms@.len() ==> #[trigger] sentence_compiled(
                names,
                ast0.selbris@,
                u2,
                ast0.sentences@,
                None,
                ast0.roots@[k] as int,
                forms@[k],
            ),
            prefix_of(ast0.sumtis@, u2),
            ast_wf(ast0.selbris@, u2, ast0.sentences@),
            forms@.len() == ast0.roots@.len(),
            ast0 == ast,
            forall|k: int, j: int| 0 <= k < ast0.roots@.len() ==> !#[trigger] sentence_tag_beyond(
                ast0.selbris@,
                ast0.sumtis@,
                ast0.sentences@,
                ast0.roots@[k] as int,
                j,
            ),
            prenex_logic(ast0.sentences@) ==> forall|k: int|
                0 <= k < forms@.len() ==> #[trigger] prenex_kept(names, ast0.sentences@, ast0.roots@[k] as int, forms@[k]),
            giha_clause_free(ast0.sumtis@, ast0.sentences@) ==> forall|k: int|
                0 <= k < forms@.len() ==> free_sub(#[trigger] forms@[k], Set::empty()),
        decreases forms@.len() - i,
    {
        let ghost before = nodes@;
        match flatten(&compiler.interner, &mut nodes, &forms[i]) {
            Some(root) => {
                proof {
                    assert forall|k: int| 0 <= k < i implies #[trigger] flat_shape(nodes@, names, roots@[k] as int, forms@[k]) by {
                        lemma_flat_shape_extend(before, nodes@, names, roots@[k] as int, forms@[k]);
                    }
                }
                roots.push(root);
            },
            None => {
                return Err(
                    GateError {
                        kind: GateKind::Semantic,
                        detail: "the compiled formula is too large to hand out".to_owned(),
                    },
                );
            },
        }
        i = i + 1;
    }
    let buf = LogicBuffer { nodes, roots };
    proof {
        assert(forms_compile(buf, ast0, names, u2, forms@));
        assert(buffer_compiles(buf, ast0));
    }
    Ok(buf)
}

/// `text` lexes, parses and compiles: some parse of it compiles to some buffer.
pub open spec fn passes_gates(text: Seq<char>) -> bool {
    exists|ast: Ast, buf: LogicBuffer| #[trigger] parsed_from(text, ast) && #[trigger] buffer_compiles(buf, ast)
}

/// Run both local gates on one text, keeping only the verdict.
pub fn validate(text: &str) -> (r: Result<(), GateError>)
    ensures
        r is Ok ==> passes_gates(text@),
        r matches Err(e) && e.kind == GateKind::Semantic ==> exists|ast: Ast| #[trigger] parsed_from(text@, ast),
        has_unknown_word(text@) ==> (r matches Err(e) && e.kind == GateKind::Syntax),
{
    match local_gates(text) {
        Ok(buf) => {
            proof {
                let ast = choose|ast: Ast| #[trigger] parsed_from(text@, ast) && buffer_compiles(buf, ast);
                assert(parsed_from(text@, ast) && buffer_compiles(buf, ast));
            }
            Ok(())
        },
        Err(e) => Err(e),
    }
}

/// Run both local gates on every content line of a knowledge base (see
/// [`crate::text::kb_lines`]), stopping at the first line that fails.
pub fn validate_kb(text: &str) -> (r: Result<(), GateError>)
    ensures
        r is Ok ==> forall|i: int|
            0 <= i < spec_kb_lines(text@).len() ==> #[trigger] passes_gates(spec_kb_lines(text@)[i]),
        (exists|i: int|
            0 <= i < spec_kb_lines(text@).len() && #[trigger] has_unknown_word(spec_kb_lines(text@)[i]))
            ==> r is Err,
        spec_kb_lines(text@).len() == 0 ==> r is Ok,
{
    let lines = kb_lines(text);
    let mut i: usize = 0;
    while i < lines.len()
        invariant
            i <= lines@.len(),
            lines@.len() == spec_kb_lines(text@).len(),
            forall|j: int| 0 <= j < lines@.len() ==> #[trigger] lines@[j]@ == spec_kb_lines(text@)[j],
            forall|j: int| 0 <= j < i ==> #[trigger] passes_gates(spec_kb_lines(text@)[j]),
            forall|j: int| 0 <= j < i ==> !#[trigger] has_unknown_word(spec_kb_lines(text@)[j]),
        decreases lines@.len() - i,
    {
        match validate(lines[i].as_str()) {
            Ok(_) => {},
            Err(e) => {
                return Err(e);
            },
        }
        i = i + 1;
    }
    Ok(())
}

} // verus!
