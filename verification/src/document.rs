//! The document assemblers: each entry point repeatedly skips ignorable
//! characters and attempts one definition of its grammar until the whole
//! input is consumed; unconsumed non-trivia text after the last definition
//! fails the parse.
//!
//! The parse result is binary: a structured document whose spans are
//! well formed (every node's start is at most its end, every child's span
//! lies within its parent's, definitions come in source order), or a single
//! diagnostic for the first position the engine could not reconcile with
//! the grammar.

use vstd::prelude::*;
use crate::ast::Document;
use crate::ast::DocumentDefinition;
use crate::ast::ExecutableDefinition;
use crate::ast::ExecutableDocument;
use crate::ast::DirectiveDefinition;
use crate::ast::FragmentDefinition;
use crate::ast::OperationDefinition;
use crate::ast::Positioned;
use crate::ast::SchemaDefinition;
use crate::ast::TypeDefinition;
use crate::ast::TypeSystemDefinition;
use crate::ast::TypeSystemDocument;
use crate::ast::definition_list_wf;
use crate::ast::lemma_spaced_complete;
use crate::ast::lemma_spaced_snoc;
use crate::ast::spaced_are;
use crate::ast::spaced_chain;
use crate::ast::spaced_list_end;
use crate::ast::document_definition_wf;
use crate::ast::document_wf;
use crate::ast::exec_definition_wf;
use crate::ast::exec_document_wf;
use crate::ast::ts_definition_wf;
use crate::ast::ts_document_wf;
use crate::error::ErrorKind;
use crate::error::ParsingError;
use crate::executable::fragment;
use crate::executable::fragment_end;
use crate::executable::fragment_is;
use crate::executable::operation_end;
use crate::executable::operation_is;
use crate::executable::operation;
use crate::lex::ignore_token0;
use crate::lex::prefix_at;
use crate::lex::ws_run;
use crate::typesystem::directive_definition;
use crate::typesystem::directive_definition_end;
use crate::typesystem::directive_definition_is;
use crate::typesystem::schema_definition_end;
use crate::typesystem::schema_is;
use crate::typesystem::type_definition_end;
use crate::typesystem::type_definition_is;
use crate::typesystem::schema_definition;
use crate::typesystem::type_definition;

verus! {

/// The whole text is ignorable characters; such a text parses as a document
/// with no definitions, and only such a text does.
pub open spec fn all_ignorable(s: Seq<char>) -> bool {
    ws_run(s, 0) == s.len()
}

/// The definitions tile the whole input: the first one starts right after
/// the leading ignorable characters, each next one right after the
/// ignorable characters that follow its predecessor, and only ignorable
/// characters follow the last one.  An empty list covers only an input
/// that is ignorable throughout.
pub open spec fn covers_input<T>(defs: Seq<Positioned<T>>, s: Seq<char>) -> bool {
    if defs.len() == 0 {
        all_ignorable(s)
    } else {
        &&& defs[0].start == ws_run(s, 0)
        &&& forall|i: int|
            0 <= i < defs.len() - 1 ==> (#[trigger] defs[i + 1]).start == defs[i].end + ws_run(
                s,
                defs[i].end as int,
            )
        &&& defs[defs.len() - 1].end + ws_run(s, defs[defs.len() - 1].end as int) == s.len()
    }
}

/// The offset right after the combined-grammar definition at `i`, the
/// alternatives in declared order, or -1.
pub open spec fn document_definition_end(s: Seq<char>, i: int) -> int {
    if schema_definition_end(s, i) >= 0 {
        schema_definition_end(s, i)
    } else if type_definition_end(s, i) >= 0 {
        type_definition_end(s, i)
    } else if directive_definition_end(s, i) >= 0 {
        directive_definition_end(s, i)
    } else if operation_end(s, i) >= 0 {
        operation_end(s, i)
    } else {
        fragment_end(s, i)
    }
}

/// `d` is the combined-grammar definition the text at `i` denotes.
pub open spec fn document_definition_is(s: Seq<char>, i: int, d: DocumentDefinition) -> bool {
    if schema_definition_end(s, i) >= 0 {
        d matches DocumentDefinition::Schema(p) && p.start == i && schema_is(s, p)
    } else if type_definition_end(s, i) >= 0 {
        d matches DocumentDefinition::Type(p) && p.start == i && p.end == type_definition_end(s, i)
            && type_definition_is(s, i, p.value)
    } else if directive_definition_end(s, i) >= 0 {
        d matches DocumentDefinition::Directive(p) && p.start == i && directive_definition_is(s, p)
    } else if operation_end(s, i) >= 0 {
        d matches DocumentDefinition::Operation(p) && p.start == i && p.end == operation_end(s, i)
            && operation_is(s, i, p.value)
    } else if fragment_end(s, i) >= 0 {
        d matches DocumentDefinition::Fragment(p) && p.start == i && p.end == fragment_end(s, i)
            && fragment_is(s, i, p.value)
    } else {
        false
    }
}

/// The offset right after the type-system definition at `i`, or -1.
pub open spec fn ts_definition_end(s: Seq<char>, i: int) -> int {
    if schema_definition_end(s, i) >= 0 {
        schema_definition_end(s, i)
    } else if type_definition_end(s, i) >= 0 {
        type_definition_end(s, i)
    } else {
        directive_definition_end(s, i)
    }
}

/// `d` is the type-system definition the text at `i` denotes.
pub open spec fn ts_definition_is(s: Seq<char>, i: int, d: TypeSystemDefinition) -> bool {
    if schema_definition_end(s, i) >= 0 {
        d matches TypeSystemDefinition::Schema(p) && p.start == i && schema_is(s, p)
    } else if type_definition_end(s, i) >= 0 {
        d matches TypeSystemDefinition::Type(p) && p.start == i && p.end == type_definition_end(
            s,
            i,
        ) && type_definition_is(s, i, p.value)
    } else if directive_definition_end(s, i) >= 0 {
        d matches TypeSystemDefinition::Directive(p) && p.start == i && directive_definition_is(
            s,
            p,
        )
    } else {
        false
    }
}

/// The offset right after the executable definition at `i`, or -1.
pub open spec fn exec_definition_end(s: Seq<char>, i: int) -> int {
    if operation_end(s, i) >= 0 {
        operation_end(s, i)
    } else {
        fragment_end(s, i)
    }
}

/// `d` is the executable definition the text at `i` denotes.
pub open spec fn exec_definition_is(s: Seq<char>, i: int, d: ExecutableDefinition) -> bool {
    if operation_end(s, i) >= 0 {
        d matches ExecutableDefinition::Operation(p) && p.start == i && p.end == operation_end(s, i)
            && operation_is(s, i, p.value)
    } else if fragment_end(s, i) >= 0 {
        d matches ExecutableDefinition::Fragment(p) && p.start == i && p.end == fragment_end(s, i)
            && fragment_is(s, i, p.value)
    } else {
        false
    }
}

/// The combined grammar accepts every definition the type-system grammar
/// accepts, at the same offset, with the same end, and wraps the same
/// declaration in the matching combined variant.
pub proof fn lemma_combined_covers_type_system(s: Seq<char>, i: int)
    requires
        0 <= i <= s.len(),
        ts_definition_end(s, i) >= 0,
    ensures
        document_definition_end(s, i) == ts_definition_end(s, i),
        forall|p: Positioned<SchemaDefinition>|
            ts_definition_is(s, i, TypeSystemDefinition::Schema(p)) <==> document_definition_is(
                s,
                i,
                DocumentDefinition::Schema(p),
            ),
        forall|p: Positioned<TypeDefinition>|
            ts_definition_is(s, i, TypeSystemDefinition::Type(p)) <==> document_definition_is(
                s,
                i,
                DocumentDefinition::Type(p),
            ),
        forall|p: Positioned<DirectiveDefinition>|
            ts_definition_is(s, i, TypeSystemDefinition::Directive(p)) <==> document_definition_is(
                s,
                i,
                DocumentDefinition::Directive(p),
            ),
{
}

/// The combined grammar accepts every definition the executable grammar
/// accepts: no type-system alternative matches a text that begins an
/// operation or a fragment, so the combined alternation reaches the same
/// branch.
#[verifier::rlimit(100)]
pub proof fn lemma_combined_covers_executable(s: Seq<char>, i: int)
    requires
        0 <= i <= s.len(),
        exec_definition_end(s, i) >= 0,
    ensures
        document_definition_end(s, i) == exec_definition_end(s, i),
        forall|p: Positioned<OperationDefinition>|
            exec_definition_is(s, i, ExecutableDefinition::Operation(p))
                <==> document_definition_is(s, i, DocumentDefinition::Operation(p)),
        forall|p: Positioned<FragmentDefinition>|
            exec_definition_is(s, i, ExecutableDefinition::Fragment(p)) <==> document_definition_is(
                s,
                i,
                DocumentDefinition::Fragment(p),
            ),
{
    reveal_strlit("query");
    reveal_strlit("mutation");
    reveal_strlit("subscription");
    reveal_strlit("fragment");
    reveal_strlit("extend");
    reveal_strlit("schema");
    reveal_strlit("scalar");
    reveal_strlit("type");
    reveal_strlit("interface");
    reveal_strlit("union");
    reveal_strlit("enum");
    reveal_strlit("input");
    reveal_strlit("directive");
    crate::lex::lemma_run_bounds(s, i, |c: char| crate::lex::is_ws(c));
    // the text begins with a brace, an operation keyword (whose second
    // letter is always `u`) or `fragment`
    let head = 0 <= i < s.len() && s[i] == '{';
    let opkw = i + 2 <= s.len() && (s[i] == 'q' || s[i] == 'm' || s[i] == 's') && s[i + 1] == 'u';
    let frag = i + 2 <= s.len() && s[i] == 'f' && s[i + 1] == 'r';
    assert(head || opkw || frag) by {
        if crate::executable::operation_end(s, i) >= 0 {
            let k = crate::typesystem::op_kw_len(s, i);
            if k >= 0 && i + k < s.len() && (crate::lex::is_ws(s[i + k]) || s[i + k] == '#') {
                if prefix_at(s, i, "query"@) {
                    crate::lex::lemma_prefix_char(s, i, "query"@, 0);
                    crate::lex::lemma_prefix_char(s, i, "query"@, 1);
                } else if prefix_at(s, i, "mutation"@) {
                    crate::lex::lemma_prefix_char(s, i, "mutation"@, 0);
                    crate::lex::lemma_prefix_char(s, i, "mutation"@, 1);
                } else {
                    crate::lex::lemma_prefix_char(s, i, "subscription"@, 0);
                    crate::lex::lemma_prefix_char(s, i, "subscription"@, 1);
                }
            } else {
                assert(crate::executable::selection_list_end(s, i) >= 0);
            }
        } else {
            crate::lex::lemma_prefix_char(s, i, "fragment"@, 0);
            crate::lex::lemma_prefix_char(s, i, "fragment"@, 1);
        }
    }
    assert(!crate::common::extend_at(s, i)) by {
        if prefix_at(s, i, "extend"@) {
            crate::lex::lemma_prefix_char(s, i, "extend"@, 0);
        }
    }
    assert(crate::lex::trivia_run(s, i) == 0);
    assert(!crate::lex::desc_block_at(s, i));
    assert(crate::lex::description_end(s, i) == i);
    assert(crate::typesystem::declaration_keyword_pos(s, i) == i);
    assert(!prefix_at(s, i, "scalar"@)) by {
        if prefix_at(s, i, "scalar"@) {
            crate::lex::lemma_prefix_char(s, i, "scalar"@, 0);
            crate::lex::lemma_prefix_char(s, i, "scalar"@, 1);
        }
    }
    assert(!prefix_at(s, i, "type"@)) by {
        if prefix_at(s, i, "type"@) {
            crate::lex::lemma_prefix_char(s, i, "type"@, 0);
        }
    }
    assert(!prefix_at(s, i, "interface"@)) by {
        if prefix_at(s, i, "interface"@) {
            crate::lex::lemma_prefix_char(s, i, "interface"@, 0);
        }
    }
    assert(!prefix_at(s, i, "union"@)) by {
        if prefix_at(s, i, "union"@) {
            crate::lex::lemma_prefix_char(s, i, "union"@, 0);
            crate::lex::lemma_prefix_char(s, i, "union"@, 1);
        }
    }
    assert(!prefix_at(s, i, "enum"@)) by {
        if prefix_at(s, i, "enum"@) {
            crate::lex::lemma_prefix_char(s, i, "enum"@, 0);
        }
    }
    assert(!prefix_at(s, i, "input"@)) by {
        if prefix_at(s, i, "input"@) {
            crate::lex::lemma_prefix_char(s, i, "input"@, 0);
        }
    }
    assert(!prefix_at(s, i, "schema"@)) by {
        if prefix_at(s, i, "schema"@) {
            crate::lex::lemma_prefix_char(s, i, "schema"@, 0);
            crate::lex::lemma_prefix_char(s, i, "schema"@, 1);
        }
    }
    assert(!prefix_at(s, i, "directive"@)) by {
        if prefix_at(s, i, "directive"@) {
            crate::lex::lemma_prefix_char(s, i, "directive"@, 0);
        }
    }
    assert(crate::typesystem::scalar_type_end(s, i) < 0);
    assert(crate::typesystem::object_type_end(s, i) < 0);
    assert(crate::typesystem::interface_type_end(s, i) < 0);
    assert(crate::typesystem::union_type_end(s, i) < 0);
    assert(crate::typesystem::enum_type_end(s, i) < 0);
    assert(crate::typesystem::input_object_type_end(s, i) < 0);
    assert(crate::typesystem::schema_definition_end(s, i) < 0);
    assert(crate::typesystem::directive_definition_end(s, i) < 0);
}

/// No definition of any kind stands at the end of the input.
pub proof fn lemma_no_definition_at_end(s: Seq<char>)
    ensures
        document_definition_end(s, s.len() as int) < 0,
        ts_definition_end(s, s.len() as int) < 0,
        exec_definition_end(s, s.len() as int) < 0,
{
    reveal_strlit("query");
    reveal_strlit("mutation");
    reveal_strlit("subscription");
    reveal_strlit("fragment");
    reveal_strlit("extend");
    reveal_strlit("schema");
    reveal_strlit("scalar");
    reveal_strlit("type");
    reveal_strlit("interface");
    reveal_strlit("union");
    reveal_strlit("enum");
    reveal_strlit("input");
    reveal_strlit("directive");
    let n = s.len() as int;
    assert(crate::lex::trivia_run(s, n) == 0);
    assert(crate::lex::description_end(s, n) == n);
    assert(!crate::common::extend_at(s, n));
    assert(crate::typesystem::declaration_keyword_pos(s, n) == n);
    assert(crate::typesystem::op_kw_len(s, n) < 0);
    assert(crate::executable::operation_preamble_end(s, n) == n);
    assert(crate::executable::selection_list_end(s, n) < 0);
}

/// An input the type-system grammar consumes whole from `i`, the combined
/// grammar consumes identically: the same definitions stand at the same
/// offsets (for the payloads see `lemma_combined_covers_type_system`).
pub proof fn lemma_document_covers_type_system(s: Seq<char>, i: int)
    requires
        0 <= i <= s.len(),
        spaced_list_end(s, i, |s2: Seq<char>, p: int| ts_definition_end(s2, p)) + ws_run(
            s,
            spaced_list_end(s, i, |s2: Seq<char>, p: int| ts_definition_end(s2, p)),
        ) == s.len(),
    ensures
        spaced_list_end(s, i, |s2: Seq<char>, p: int| document_definition_end(s2, p))
            == spaced_list_end(s, i, |s2: Seq<char>, p: int| ts_definition_end(s2, p)),
    decreases s.len() - i,
{
    crate::lex::lemma_run_bounds(s, i, |c: char| crate::lex::is_ws(c));
    let q = i + ws_run(s, i);
    if q <= s.len() && ts_definition_end(s, q) >= 0 && i < ts_definition_end(s, q) <= s.len() {
        lemma_combined_covers_type_system(s, q);
        lemma_document_covers_type_system(s, ts_definition_end(s, q));
    } else {
        crate::lex::lemma_run_bounds(s, q, |c: char| crate::lex::is_ws(c));
        lemma_no_definition_at_end(s);
    }
}

/// An input the executable grammar consumes whole from `i`, the combined
/// grammar consumes identically (for the payloads see
/// `lemma_combined_covers_executable`).
pub proof fn lemma_document_covers_executable(s: Seq<char>, i: int)
    requires
        0 <= i <= s.len(),
        spaced_list_end(s, i, |s2: Seq<char>, p: int| exec_definition_end(s2, p)) + ws_run(
            s,
            spaced_list_end(s, i, |s2: Seq<char>, p: int| exec_definition_end(s2, p)),
        ) == s.len(),
    ensures
        spaced_list_end(s, i, |s2: Seq<char>, p: int| document_definition_end(s2, p))
            == spaced_list_end(s, i, |s2: Seq<char>, p: int| exec_definition_end(s2, p)),
    decreases s.len() - i,
{
    crate::lex::lemma_run_bounds(s, i, |c: char| crate::lex::is_ws(c));
    let q = i + ws_run(s, i);
    if q <= s.len() && exec_definition_end(s, q) >= 0 && i < exec_definition_end(s, q) <= s.len() {
        lemma_combined_covers_executable(s, q);
        lemma_document_covers_executable(s, exec_definition_end(s, q));
    } else {
        crate::lex::lemma_run_bounds(s, q, |c: char| crate::lex::is_ws(c));
        lemma_no_definition_at_end(s);
    }
}

/// One definition of the combined grammar, the alternatives in declared
/// order: schema, type, directive, operation, fragment.
fn document_definition(input: &str, pos: usize) -> (r: Result<
    (usize, DocumentDefinition),
    ParsingError,
>)
    requires
        pos <= input@.len(),
    ensures
        r is Ok <==> document_definition_end(input@, pos as int) >= 0,
        r matches Ok((np, d)) ==> np == document_definition_end(input@, pos as int) && document_definition_is(input@, pos as int, d),
        r matches Ok((np, d)) ==> pos < np <= input@.len() && document_definition_wf(
            d,
            pos as int,
            np as int,
        ),
        r matches Err(e) ==> e.offset <= input@.len(),
{
    match schema_definition(input, pos) {
        Ok((np, pd)) => {
            return Ok((np, DocumentDefinition::Schema(pd)));
        },
        Err(_) => {},
    }
    match type_definition(input, pos) {
        Ok((np, td)) => {
            return Ok((np, DocumentDefinition::Type(Positioned { start: pos, end: np, value: td })));
        },
        Err(_) => {},
    }
    match directive_definition(input, pos) {
        Ok((np, pd)) => {
            return Ok((np, DocumentDefinition::Directive(pd)));
        },
        Err(_) => {},
    }
    match operation(input, pos) {
        Ok((np, o)) => {
            return Ok(
                (np, DocumentDefinition::Operation(Positioned { start: pos, end: np, value: o })),
            );
        },
        Err(_) => {},
    }
    match fragment(input, pos) {
        Ok((np, f)) => Ok(
            (np, DocumentDefinition::Fragment(Positioned { start: pos, end: np, value: f })),
        ),
        Err(e) => Err(e),
    }
}

/// One definition of the type-system grammar: schema, type or directive.
fn type_system_definition(input: &str, pos: usize) -> (r: Result<
    (usize, TypeSystemDefinition),
    ParsingError,
>)
    requires
        pos <= input@.len(),
    ensures
        r is Ok <==> ts_definition_end(input@, pos as int) >= 0,
        r matches Ok((np, d)) ==> np == ts_definition_end(input@, pos as int) && ts_definition_is(input@, pos as int, d),
        r matches Ok((np, d)) ==> pos < np <= input@.len() && ts_definition_wf(
            d,
            pos as int,
            np as int,
        ),
        r matches Err(e) ==> e.offset <= input@.len(),
{
    match schema_definition(input, pos) {
        Ok((np, pd)) => {
            return Ok((np, TypeSystemDefinition::Schema(pd)));
        },
        Err(_) => {},
    }
    match type_definition(input, pos) {
        Ok((np, td)) => {
            return Ok(
                (np, TypeSystemDefinition::Type(Positioned { start: pos, end: np, value: td })),
            );
        },
        Err(_) => {},
    }
    match directive_definition(input, pos) {
        Ok((np, pd)) => Ok((np, TypeSystemDefinition::Directive(pd))),
        Err(e) => Err(e),
    }
}

/// One definition of the executable grammar: an operation or a fragment.
fn executable_definition(input: &str, pos: usize) -> (r: Result<
    (usize, ExecutableDefinition),
    ParsingError,
>)
    requires
        pos <= input@.len(),
    ensures
        r is Ok <==> exec_definition_end(input@, pos as int) >= 0,
        r matches Ok((np, d)) ==> np == exec_definition_end(input@, pos as int) && exec_definition_is(input@, pos as int, d),
        r matches Ok((np, d)) ==> pos < np <= input@.len() && exec_definition_wf(
            d,
            pos as int,
            np as int,
        ),
        r matches Err(e) ==> e.offset <= input@.len(),
{
    match operation(input, pos) {
        Ok((np, o)) => {
            return Ok(
                (np, ExecutableDefinition::Operation(Positioned { start: pos, end: np, value: o })),
            );
        },
        Err(_) => {},
    }
    match fragment(input, pos) {
        Ok((np, f)) => Ok(
            (np, ExecutableDefinition::Fragment(Positioned { start: pos, end: np, value: f })),
        ),
        Err(e) => Err(e),
    }
}

/// Parses a combined document: type-system and executable definitions mixed
/// in any order, the whole input consumed.
#[verifier::rlimit(50)]
pub fn parse_document(source: &str) -> (r: Result<Document, ParsingError>)
    ensures
        r is Ok <==> ({
            let j = spaced_list_end(source@, 0, |s2: Seq<char>, p: int| document_definition_end(s2, p));
            j + ws_run(source@, j) == source@.len()
        }),
        r matches Ok(d) ==> spaced_are(
            source@,
            0,
            d.definition_list@,
            |s2: Seq<char>, p: int| document_definition_end(s2, p),
            |s2: Seq<char>, x: Positioned<DocumentDefinition>| document_definition_is(s2, x.start as int, x.value) && x.end == document_definition_end(
                s2,
                x.start as int,
            ),
        ),
        r matches Err(e) ==> ({
            let j = spaced_list_end(source@, 0, |s2: Seq<char>, p: int| document_definition_end(s2, p));
            e.offset == j + ws_run(source@, j) && document_definition_end(source@, e.offset as int) < 0
        }),
        r matches Ok(d) ==> document_wf(d, source@.len() as int),
        r matches Ok(d) ==> covers_input(d.definition_list@, source@),
        r matches Ok(d) ==> (d.definition_list@.len() == 0 <==> all_ignorable(source@)),
        all_ignorable(source@) ==> r is Ok,
        r matches Err(e) ==> e.offset <= source@.len(),
{
    let ghost s = source@;
    let n = source.unicode_len();
    let mut defs: Vec<Positioned<DocumentDefinition>> = Vec::new();
    let mut p: usize = 0;
    loop
        invariant
            0 <= p <= n,
            n == s.len(),
            s == source@,
            definition_list_wf(
                defs@,
                p as int,
                |v: DocumentDefinition, lo: int, hi: int| document_definition_wf(v, lo, hi),
            ),
            defs@.len() == 0 ==> p == 0,
            defs@.len() > 0 ==> defs@[0].start == ws_run(s, 0) && defs@[0].start < defs@[0].end,
            defs@.len() > 0 ==> defs@[defs@.len() - 1].end == p,
            forall|i: int|
                0 <= i < defs@.len() - 1 ==> (#[trigger] defs@[i + 1]).start == defs@[i].end
                    + ws_run(s, defs@[i].end as int),
            spaced_chain(
                s,
                0,
                p as int,
                defs@,
                |s2: Seq<char>, pp: int| document_definition_end(s2, pp),
                |s2: Seq<char>, x: Positioned<DocumentDefinition>| document_definition_is(s2, x.start as int, x.value) && x.end
                    == document_definition_end(s2, x.start as int),
            ),
        decreases n - p,
    {
        let q = ignore_token0(source, p);
        match document_definition(source, q) {
            Ok((p2, d)) => {
                proof {
                    lemma_spaced_snoc(
                        s,
                        0,
                        p as int,
                        defs@,
                        Positioned { start: q, end: p2, value: d },
                        |s2: Seq<char>, pp: int| document_definition_end(s2, pp),
                        |s2: Seq<char>, x: Positioned<DocumentDefinition>| document_definition_is(s2, x.start as int, x.value)
                            && x.end == document_definition_end(s2, x.start as int),
                    );
                }
                defs.push(Positioned { start: q, end: p2, value: d });
                p = p2;
            },
            Err(_) => {
                proof {
                    lemma_spaced_complete(
                        s,
                        0,
                        p as int,
                        defs@,
                        |s2: Seq<char>, pp: int| document_definition_end(s2, pp),
                        |s2: Seq<char>, x: Positioned<DocumentDefinition>| document_definition_is(s2, x.start as int, x.value)
                            && x.end == document_definition_end(s2, x.start as int),
                    );
                }
                if q == n {
                    return Ok(Document { definition_list: defs });
                }
                return Err(ParsingError { offset: q, kind: ErrorKind::TrailingInput });
            },
        }
    }
}

/// Parses a type-system document: only schema, type and directive
/// definitions are accepted; an operation or fragment fails the parse.
#[verifier::rlimit(50)]
pub fn parse_type_system(source: &str) -> (r: Result<TypeSystemDocument, ParsingError>)
    ensures
        r is Ok <==> ({
            let j = spaced_list_end(source@, 0, |s2: Seq<char>, p: int| ts_definition_end(s2, p));
            j + ws_run(source@, j) == source@.len()
        }),
        r matches Ok(d) ==> spaced_are(
            source@,
            0,
            d.definition_list@,
            |s2: Seq<char>, p: int| ts_definition_end(s2, p),
            |s2: Seq<char>, x: Positioned<TypeSystemDefinition>| ts_definition_is(s2, x.start as int, x.value) && x.end == ts_definition_end(
                s2,
                x.start as int,
            ),
        ),
        r matches Err(e) ==> ({
            let j = spaced_list_end(source@, 0, |s2: Seq<char>, p: int| ts_definition_end(s2, p));
            e.offset == j + ws_run(source@, j) && ts_definition_end(source@, e.offset as int) < 0
        }),
        r matches Ok(d) ==> ts_document_wf(d, source@.len() as int),
        r matches Ok(d) ==> covers_input(d.definition_list@, source@),
        r matches Ok(d) ==> (d.definition_list@.len() == 0 <==> all_ignorable(source@)),
        all_ignorable(source@) ==> r is Ok,
        r matches Err(e) ==> e.offset <= source@.len(),
{
    let ghost s = source@;
    let n = source.unicode_len();
    let mut defs: Vec<Positioned<TypeSystemDefinition>> = Vec::new();
    let mut p: usize = 0;
    loop
        invariant
            0 <= p <= n,
            n == s.len(),
            s == source@,
            definition_list_wf(
                defs@,
                p as int,
                |v: TypeSystemDefinition, lo: int, hi: int| ts_definition_wf(v, lo, hi),
            ),
            defs@.len() == 0 ==> p == 0,
            defs@.len() > 0 ==> defs@[0].start == ws_run(s, 0) && defs@[0].start < defs@[0].end,
            defs@.len() > 0 ==> defs@[defs@.len() - 1].end == p,
            forall|i: int|
                0 <= i < defs@.len() - 1 ==> (#[trigger] defs@[i + 1]).start == defs@[i].end
                    + ws_run(s, defs@[i].end as int),
            spaced_chain(
                s,
                0,
                p as int,
                defs@,
                |s2: Seq<char>, pp: int| ts_definition_end(s2, pp),
                |s2: Seq<char>, x: Positioned<TypeSystemDefinition>| ts_definition_is(s2, x.start as int, x.value) && x.end
                    == ts_definition_end(s2, x.start as int),
            ),
        decreases n - p,
    {
        let q = ignore_token0(source, p);
        match type_system_definition(source, q) {
            Ok((p2, d)) => {
                proof {
                    lemma_spaced_snoc(
                        s,
                        0,
                        p as int,
                        defs@,
                        Positioned { start: q, end: p2, value: d },
                        |s2: Seq<char>, pp: int| ts_definition_end(s2, pp),
                        |s2: Seq<char>, x: Positioned<TypeSystemDefinition>| ts_definition_is(s2, x.start as int, x.value)
                            && x.end == ts_definition_end(s2, x.start as int),
                    );
                }
                defs.push(Positioned { start: q, end: p2, value: d });
                p = p2;
            },
            Err(_) => {
                proof {
                    lemma_spaced_complete(
                        s,
                        0,
                        p as int,
                        defs@,
                        |s2: Seq<char>, pp: int| ts_definition_end(s2, pp),
                        |s2: Seq<char>, x: Positioned<TypeSystemDefinition>| ts_definition_is(s2, x.start as int, x.value)
                            && x.end == ts_definition_end(s2, x.start as int),
                    );
                }
                if q == n {
                    return Ok(TypeSystemDocument { definition_list: defs });
                }
                return Err(ParsingError { offset: q, kind: ErrorKind::TrailingInput });
            },
        }
    }
}

/// Parses an executable document: only operation and fragment definitions
/// are accepted; a type-system definition fails the parse.
#[verifier::rlimit(50)]
pub fn parse_executable(source: &str) -> (r: Result<ExecutableDocument, ParsingError>)
    ensures
        r is Ok <==> ({
            let j = spaced_list_end(source@, 0, |s2: Seq<char>, p: int| exec_definition_end(s2, p));
            j + ws_run(source@, j) == source@.len()
        }),
        r matches Ok(d) ==> spaced_are(
            source@,
            0,
            d.definition_list@,
            |s2: Seq<char>, p: int| exec_definition_end(s2, p),
            |s2: Seq<char>, x: Positioned<ExecutableDefinition>| exec_definition_is(s2, x.start as int, x.value) && x.end == exec_definition_end(
                s2,
                x.start as int,
            ),
        ),
        r matches Err(e) ==> ({
            let j = spaced_list_end(source@, 0, |s2: Seq<char>, p: int| exec_definition_end(s2, p));
            e.offset == j + ws_run(source@, j) && exec_definition_end(source@, e.offset as int) < 0
        }),
        r matches Ok(d) ==> exec_document_wf(d, source@.len() as int),
        r matches Ok(d) ==> covers_input(d.definition_list@, source@),
        r matches Ok(d) ==> (d.definition_list@.len() == 0 <==> all_ignorable(source@)),
        all_ignorable(source@) ==> r is Ok,
        r matches Err(e) ==> e.offset <= source@.len(),
{
    let ghost s = source@;
    let n = source.unicode_len();
    let mut defs: Vec<Positioned<ExecutableDefinition>> = Vec::new();
    let mut p: usize = 0;
    loop
        invariant
            0 <= p <= n,
            n == s.len(),
            s == source@,
            definition_list_wf(
                defs@,
                p as int,
                |v: ExecutableDefinition, lo: int, hi: int| exec_definition_wf(v, lo, hi),
            ),
            defs@.len() == 0 ==> p == 0,
            defs@.len() > 0 ==> defs@[0].start == ws_run(s, 0) && defs@[0].start < defs@[0].end,
            defs@.len() > 0 ==> defs@[defs@.len() - 1].end == p,
            forall|i: int|
                0 <= i < defs@.len() - 1 ==> (#[trigger] defs@[i + 1]).start == defs@[i].end
                    + ws_run(s, defs@[i].end as int),
            spaced_chain(
                s,
                0,
                p as int,
                defs@,
                |s2: Seq<char>, pp: int| exec_definition_end(s2, pp),
                |s2: Seq<char>, x: Positioned<ExecutableDefinition>| exec_definition_is(s2, x.start as int, x.value) && x.end
                    == exec_definition_end(s2, x.start as int),
            ),
        decreases n - p,
    {
        let q = ignore_token0(source, p);
        match executable_definition(source, q) {
            Ok((p2, d)) => {
                proof {
                    lemma_spaced_snoc(
                        s,
                        0,
                        p as int,
                        defs@,
                        Positioned { start: q, end: p2, value: d },
                        |s2: Seq<char>, pp: int| exec_definition_end(s2, pp),
                        |s2: Seq<char>, x: Positioned<ExecutableDefinition>| exec_definition_is(s2, x.start as int, x.value)
                            && x.end == exec_definition_end(s2, x.start as int),
                    );
                }
                defs.push(Positioned { start: q, end: p2, value: d });
                p = p2;
            },
            Err(_) => {
                proof {
                    lemma_spaced_complete(
                        s,
                        0,
                        p as int,
                        defs@,
                        |s2: Seq<char>, pp: int| exec_definition_end(s2, pp),
                        |s2: Seq<char>, x: Positioned<ExecutableDefinition>| exec_definition_is(s2, x.start as int, x.value)
                            && x.end == exec_definition_end(s2, x.start as int),
                    );
                }
                if q == n {
                    return Ok(ExecutableDocument { definition_list: defs });
                }
                return Err(ParsingError { offset: q, kind: ErrorKind::TrailingInput });
            },
        }
    }
}

} // verus!
