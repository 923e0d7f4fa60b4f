//! The type-system grammar: schema, scalar, object, interface, union, enum,
//! input-object and directive declarations, each with an extension variant.
//!
//! Every declaration optionally consumes `extend` with a mandatory trailing
//! separator, parses a description only when it is not an extension, parses
//! the keyword and declared name, then directive attachments, then the body.
//! When extending, at least one directive or body element must follow: a
//! bare extension that adds nothing fails at the current offset.

use vstd::prelude::*;
use crate::ast::DirectiveDefinition;
use crate::ast::DirectiveLocation;
use crate::ast::EnumMember;
use crate::ast::EnumType;
use crate::ast::ExecutableDirectiveLocation;
use crate::ast::FieldDefinition;
use crate::ast::InputObjectType;
use crate::ast::InterfaceType;
use crate::ast::ObjectType;
use crate::ast::OperationField;
use crate::ast::OperationType;
use crate::ast::Positioned;
use crate::ast::ScalarType;
use crate::ast::SchemaDefinition;
use crate::ast::TypeDefinition;
use crate::ast::TypeSystemDirectiveLocation;
use crate::ast::UnionType;
use crate::ast::directive_def_wf;
use crate::ast::enum_member_wf;
use crate::ast::enum_members_wf;
use crate::ast::enum_type_wf;
use crate::ast::field_def_wf;
use crate::ast::field_defs_wf;
use crate::ast::input_object_wf;
use crate::ast::interface_wf;
use crate::ast::object_wf;
use crate::ast::opfields_wf;
use crate::ast::scalar_wf;
use crate::ast::schema_wf;
use crate::ast::span_ok;
use crate::ast::spans_ok;
use crate::ast::type_def_wf;
use crate::ast::union_wf;
use crate::ast::lemma_sep1_complete;
use crate::ast::lemma_sep1_snoc;
use crate::ast::lemma_spaced_complete;
use crate::ast::lemma_spaced_snoc;
use crate::ast::sep1_are;
use crate::ast::spaced_chain;
use crate::ast::sep1_chain;
use crate::ast::sep1_list_end;
use crate::ast::spaced_are;
use crate::ast::spaced_list_end;
use crate::common::definition_type;
use crate::common::directive_list;
use crate::common::directive_name;
use crate::common::directive_end;
use crate::common::directive_list_end;
use crate::common::directive_start_at;
use crate::common::directives_are;
use crate::common::fargs_are;
use crate::common::field_argument_list_end;
use crate::common::ty_end;
use crate::common::ty_is;
use crate::common::extend;
use crate::common::extend_at;
use crate::common::keyword_name_at;
use crate::common::keyword_name_end;
use crate::common::field_argument_list;
use crate::common::operation_type;
use crate::common::ty;
use crate::error::ErrorKind;
use crate::error::ParsingError;
use crate::lex::description;
use crate::lex::desc_is;
use crate::lex::description_end;
use crate::lex::is_name_start;
use crate::lex::name_run;
use crate::lex::expect_char;
use crate::lex::ignore_token0;
use crate::lex::ignore_token1;
use crate::lex::name;
use crate::lex::is_ws;
use crate::lex::prefix_at;
use crate::lex::tag;
use crate::lex::trivia_run;
use crate::lex::ws_run;

verus! {

/// The closed location table, in the grammar's declared order: longer and
/// more specific keywords stand before their prefixes.
pub open spec fn directive_location_at(s: Seq<char>, i: int) -> Option<(int, DirectiveLocation)> {
    if prefix_at(s, i, "SCHEMA"@) {
        Some(("SCHEMA"@.len() as int, DirectiveLocation::TypeSystem(TypeSystemDirectiveLocation::Schema)))
    } else if prefix_at(s, i, "SCALAR"@) {
        Some(("SCALAR"@.len() as int, DirectiveLocation::TypeSystem(TypeSystemDirectiveLocation::Scalar)))
    } else if prefix_at(s, i, "OBJECT"@) {
        Some(("OBJECT"@.len() as int, DirectiveLocation::TypeSystem(TypeSystemDirectiveLocation::Object)))
    } else if prefix_at(s, i, "FIELD_DEFINITION"@) {
        Some(
            (
                "FIELD_DEFINITION"@.len() as int,
                DirectiveLocation::TypeSystem(TypeSystemDirectiveLocation::FieldDefinition),
            ),
        )
    } else if prefix_at(s, i, "ARGUMENT_DEFINITION"@) {
        Some(
            (
                "ARGUMENT_DEFINITION"@.len() as int,
                DirectiveLocation::TypeSystem(TypeSystemDirectiveLocation::ArgumentDefinition),
            ),
        )
    } else if prefix_at(s, i, "INTERFACE"@) {
        Some(
            (
                "INTERFACE"@.len() as int,
                DirectiveLocation::TypeSystem(TypeSystemDirectiveLocation::Interface),
            ),
        )
    } else if prefix_at(s, i, "UNION"@) {
        Some(("UNION"@.len() as int, DirectiveLocation::TypeSystem(TypeSystemDirectiveLocation::Union)))
    } else if prefix_at(s, i, "ENUM_VALUE"@) {
        Some(
            (
                "ENUM_VALUE"@.len() as int,
                DirectiveLocation::TypeSystem(TypeSystemDirectiveLocation::EnumValue),
            ),
        )
    } else if prefix_at(s, i, "ENUM"@) {
        Some(("ENUM"@.len() as int, DirectiveLocation::TypeSystem(TypeSystemDirectiveLocation::Enum)))
    } else if prefix_at(s, i, "INPUT_OBJECT"@) {
        Some(
            (
                "INPUT_OBJECT"@.len() as int,
                DirectiveLocation::TypeSystem(TypeSystemDirectiveLocation::InputObject),
            ),
        )
    } else if prefix_at(s, i, "INPUT_FIELD_DEFINITION"@) {
        Some(
            (
                "INPUT_FIELD_DEFINITION"@.len() as int,
                DirectiveLocation::TypeSystem(TypeSystemDirectiveLocation::InputFieldDefinition),
            ),
        )
    } else if prefix_at(s, i, "QUERY"@) {
        Some(("QUERY"@.len() as int, DirectiveLocation::Executable(ExecutableDirectiveLocation::Query)))
    } else if prefix_at(s, i, "MUTATION"@) {
        Some(
            (
                "MUTATION"@.len() as int,
                DirectiveLocation::Executable(ExecutableDirectiveLocation::Mutation),
            ),
        )
    } else if prefix_at(s, i, "SUBSCRIPTION"@) {
        Some(
            (
                "SUBSCRIPTION"@.len() as int,
                DirectiveLocation::Executable(ExecutableDirectiveLocation::Subscription),
            ),
        )
    } else if prefix_at(s, i, "FIELD"@) {
        Some(("FIELD"@.len() as int, DirectiveLocation::Executable(ExecutableDirectiveLocation::Field)))
    } else if prefix_at(s, i, "FRAGMENT_DEFINITION"@) {
        Some(
            (
                "FRAGMENT_DEFINITION"@.len() as int,
                DirectiveLocation::Executable(ExecutableDirectiveLocation::FragmentDefinition),
            ),
        )
    } else if prefix_at(s, i, "FRAGMENT_SPREAD"@) {
        Some(
            (
                "FRAGMENT_SPREAD"@.len() as int,
                DirectiveLocation::Executable(ExecutableDirectiveLocation::FragmentSpread),
            ),
        )
    } else if prefix_at(s, i, "INLINE_FRAGMENT"@) {
        Some(
            (
                "INLINE_FRAGMENT"@.len() as int,
                DirectiveLocation::Executable(ExecutableDirectiveLocation::InlineFragment),
            ),
        )
    } else {
        None
    }
}


/// The offset right after the field declaration at `i`, or -1.
pub open spec fn field_definition_end(s: Seq<char>, i: int) -> int {
    if 0 <= i <= s.len() {
        let p0 = description_end(s, i);
        if i <= p0 && p0 < s.len() && is_name_start(s[p0]) {
            let p1 = p0 + name_run(s, p0);
            let p2 = p1 + ws_run(s, p1);
            if 0 <= p2 <= s.len() {
                let p3 = field_argument_list_end(s, p2);
                if 0 <= p3 < s.len() && s[p3] == ':' {
                    let p5 = p3 + 1 + ws_run(s, p3 + 1);
                    if p5 <= s.len() && ty_end(s, p5) >= 0 {
                        directive_list_end(s, ty_end(s, p5))
                    } else {
                        -1
                    }
                } else {
                    -1
                }
            } else {
                -1
            }
        } else {
            -1
        }
    } else {
        -1
    }
}

/// `pf` is the field declaration the text at its start denotes.
pub open spec fn field_def_is(s: Seq<char>, pf: Positioned<FieldDefinition>) -> bool
    decreases pf,
{
    let i = pf.start as int;
    let p0 = description_end(s, i);
    let p1 = p0 + name_run(s, p0);
    let p2 = p1 + ws_run(s, p1);
    let p3 = field_argument_list_end(s, p2);
    let p5 = p3 + 1 + ws_run(s, p3 + 1);
    let p6 = ty_end(s, p5);
    &&& desc_is(s, i, pf.value.description)
    &&& p0 < s.len() && is_name_start(s[p0])
    &&& pf.value.name.start == p0 && pf.value.name.end == p1 && pf.value.name.value@ == s.subrange(
        p0,
        p1,
    )
    &&& fargs_are(s, p2, pf.value.argument_list@)
    &&& 0 <= p3 < s.len() && s[p3] == ':'
    &&& ty_end(s, p5) >= 0 && pf.value.ty.start == p5 && pf.value.ty.end == p6 && ty_is(
        s,
        p5,
        pf.value.ty.value,
    )
    &&& directives_are(s, p6, pf.value.directive_list@)
    &&& pf.end == field_definition_end(s, i)
    &&& i < pf.end <= s.len()
}

/// The field declarations are exactly the separated run standing at `i`.
pub open spec fn field_defs_are(s: Seq<char>, i: int, fl: Seq<Positioned<FieldDefinition>>) -> bool {
    sep1_are(
        s,
        i,
        fl,
        |s2: Seq<char>, p: int| field_definition_end(s2, p),
        |s2: Seq<char>, p: int, x: Positioned<FieldDefinition>| x.start == p && field_def_is(s2, x),
    )
}

/// The offset right after the braced field body past the trivia at `i`, or
/// -1 when no well-formed body stands there.
pub open spec fn field_body_end(s: Seq<char>, i: int) -> int {
    let a = i + ws_run(s, i);
    if 0 <= a < s.len() && s[a] == '{' {
        let b = a + 1 + ws_run(s, a + 1);
        if 0 <= b <= s.len() {
            let q = sep1_list_end(s, b, |s2: Seq<char>, p: int| field_definition_end(s2, p));
            if 0 <= q <= s.len() {
                let c = q + ws_run(s, q);
                if 0 <= c < s.len() && s[c] == '}' {
                    c + 1
                } else {
                    -1
                }
            } else {
                -1
            }
        } else {
            -1
        }
    } else {
        -1
    }
}

/// `fl` is the field list of the body at `i`: its separated run when a body
/// parses there, and empty otherwise.
pub open spec fn field_body_is(s: Seq<char>, i: int, fl: Seq<Positioned<FieldDefinition>>) -> bool {
    if field_body_end(s, i) >= 0 {
        let a = i + ws_run(s, i);
        field_defs_are(s, a + 1 + ws_run(s, a + 1), fl)
    } else {
        fl.len() == 0
    }
}

/// Later names of a punctuated name list follow `sep` at `i`.
pub open spec fn punct_name_can(s: Seq<char>, i: int, sep: char) -> bool {
    let d = i + ws_run(s, i);
    let f = d + 1 + ws_run(s, d + 1);
    &&& 0 <= i <= d < s.len() && s[d] == sep
    &&& d < f && f < s.len() && is_name_start(s[f])
}

pub open spec fn punct_name_step(s: Seq<char>, i: int, sep: char) -> int {
    let d = i + ws_run(s, i);
    d + 1 + ws_run(s, d + 1)
}

/// The later names of a `sep`-punctuated list from `i` up to `j`.
pub open spec fn punct_names_chain(
    s: Seq<char>,
    i: int,
    j: int,
    names: Seq<Positioned<String>>,
    sep: char,
) -> bool
    decreases names.len(),
{
    if names.len() == 0 {
        j == i
    } else {
        let f = punct_name_step(s, i, sep);
        let e = f + name_run(s, f);
        &&& punct_name_can(s, i, sep)
        &&& names[0].start == f && names[0].end == e
        &&& names[0].value@ == s.subrange(f, e)
        &&& f < e <= s.len()
        &&& punct_names_chain(s, e, j, names.subrange(1, names.len() as int), sep)
    }
}

/// The offset right after the later names of such a list.
pub open spec fn punct_names_end(s: Seq<char>, i: int, sep: char) -> int
    decreases s.len() - i,
{
    if punct_name_can(s, i, sep) {
        let f = punct_name_step(s, i, sep);
        let e = f + name_run(s, f);
        if i < e <= s.len() {
            punct_names_end(s, e, sep)
        } else {
            i
        }
    } else {
        i
    }
}

/// The later names are exactly the complete `sep`-punctuated run at `i`.
pub open spec fn punct_names_are(s: Seq<char>, i: int, names: Seq<Positioned<String>>, sep: char) -> bool
    decreases names.len(),
{
    if punct_name_can(s, i, sep) {
        let f = punct_name_step(s, i, sep);
        let e = f + name_run(s, f);
        &&& names.len() > 0
        &&& names[0].start == f && names[0].end == e
        &&& names[0].value@ == s.subrange(f, e)
        &&& f < e <= s.len()
        &&& punct_names_are(s, e, names.subrange(1, names.len() as int), sep)
    } else {
        names.len() == 0
    }
}

pub proof fn lemma_punct_names_snoc(
    s: Seq<char>,
    i: int,
    j: int,
    names: Seq<Positioned<String>>,
    x: Positioned<String>,
    sep: char,
)
    requires
        punct_names_chain(s, i, j, names, sep),
        punct_name_can(s, j, sep),
        x.start == punct_name_step(s, j, sep),
        x.end == x.start + name_run(s, x.start as int),
        x.value@ == s.subrange(x.start as int, x.end as int),
        x.start < x.end <= s.len(),
    ensures
        punct_names_chain(
            s,
            i,
            punct_name_step(s, j, sep) + name_run(s, punct_name_step(s, j, sep)),
            names.push(x),
            sep,
        ),
    decreases names.len(),
{
    reveal_with_fuel(punct_names_chain, 3);
    if names.len() == 0 {
        assert(names.push(x).subrange(1, 1) =~= Seq::<Positioned<String>>::empty());
    } else {
        let f = punct_name_step(s, i, sep);
        lemma_punct_names_snoc(s, f + name_run(s, f), j, names.subrange(1, names.len() as int), x, sep);
        assert(names.push(x).subrange(1, names.len() as int + 1) =~= names.subrange(
            1,
            names.len() as int,
        ).push(x));
    }
}

pub proof fn lemma_punct_names_complete(
    s: Seq<char>,
    i: int,
    j: int,
    names: Seq<Positioned<String>>,
    sep: char,
)
    requires
        punct_names_chain(s, i, j, names, sep),
        !punct_name_can(s, j, sep),
    ensures
        punct_names_are(s, i, names, sep),
        j == punct_names_end(s, i, sep),
    decreases names.len(),
{
    if names.len() > 0 {
        let f = punct_name_step(s, i, sep);
        lemma_punct_names_complete(s, f + name_run(s, f), j, names.subrange(1, names.len() as int), sep);
    }
}

/// The offset right after the enum member at `i`, or -1.
pub open spec fn enum_member_end(s: Seq<char>, i: int) -> int {
    if 0 <= i <= s.len() {
        let p0 = description_end(s, i);
        if i <= p0 && p0 < s.len() && is_name_start(s[p0]) {
            directive_list_end(s, p0 + name_run(s, p0))
        } else {
            -1
        }
    } else {
        -1
    }
}

/// `pm` is the enum member the text at its start denotes.
pub open spec fn enum_member_is(s: Seq<char>, pm: Positioned<EnumMember>) -> bool
    decreases pm,
{
    let i = pm.start as int;
    let p0 = description_end(s, i);
    let p1 = p0 + name_run(s, p0);
    &&& desc_is(s, i, pm.value.description)
    &&& p0 < s.len() && is_name_start(s[p0])
    &&& pm.value.name.start == p0 && pm.value.name.end == p1 && pm.value.name.value@ == s.subrange(
        p0,
        p1,
    )
    &&& directives_are(s, p1, pm.value.directive_list@)
    &&& pm.end == enum_member_end(s, i)
    &&& i < pm.end <= s.len()
}

/// The offset right after the braced enum body past the trivia at `i`, or
/// -1; the body needs at least one member.
pub open spec fn enum_body_end(s: Seq<char>, i: int) -> int {
    let a = i + ws_run(s, i);
    if 0 <= a < s.len() && s[a] == '{' {
        let b = a + 1;
        if enum_member_end(s, b + ws_run(s, b)) >= 0 {
            let q = spaced_list_end(s, b, |s2: Seq<char>, p: int| enum_member_end(s2, p));
            if 0 <= q <= s.len() {
                let c = q + ws_run(s, q);
                if 0 <= c < s.len() && s[c] == '}' {
                    c + 1
                } else {
                    -1
                }
            } else {
                -1
            }
        } else {
            -1
        }
    } else {
        -1
    }
}

/// `ms` is the member list of the enum body at `i`, empty when no body
/// parses there.
pub open spec fn enum_body_is(s: Seq<char>, i: int, ms: Seq<Positioned<EnumMember>>) -> bool {
    if enum_body_end(s, i) >= 0 {
        let a = i + ws_run(s, i);
        spaced_are(
            s,
            a + 1,
            ms,
            |s2: Seq<char>, p: int| enum_member_end(s2, p),
            |s2: Seq<char>, x: Positioned<EnumMember>| enum_member_is(s2, x),
        )
    } else {
        ms.len() == 0
    }
}


/// The operation-type keyword standing at `i`: its length, or -1.
pub open spec fn op_kw_len(s: Seq<char>, i: int) -> int {
    if prefix_at(s, i, "query"@) {
        5
    } else if prefix_at(s, i, "mutation"@) {
        8
    } else if prefix_at(s, i, "subscription"@) {
        12
    } else {
        -1
    }
}

pub open spec fn op_kw_ty(s: Seq<char>, i: int) -> OperationType {
    if prefix_at(s, i, "query"@) {
        OperationType::Query
    } else if prefix_at(s, i, "mutation"@) {
        OperationType::Mutation
    } else {
        OperationType::Subscription
    }
}

/// The offset right after the `operationType: Name` entry at `i`, or -1.
pub open spec fn operation_field_end(s: Seq<char>, i: int) -> int {
    let k = op_kw_len(s, i);
    if k >= 0 {
        let c = i + k + ws_run(s, i + k);
        if 0 <= c < s.len() && s[c] == ':' {
            let n = c + 1 + ws_run(s, c + 1);
            if 0 <= n < s.len() && is_name_start(s[n]) {
                n + name_run(s, n)
            } else {
                -1
            }
        } else {
            -1
        }
    } else {
        -1
    }
}

/// `f` is the schema body entry the text at `i` denotes.
pub open spec fn operation_field_is(s: Seq<char>, i: int, f: OperationField) -> bool {
    let k = op_kw_len(s, i);
    let c = i + k + ws_run(s, i + k);
    let n = c + 1 + ws_run(s, c + 1);
    &&& k >= 0 && f.ty == op_kw_ty(s, i)
    &&& 0 <= c < s.len() && s[c] == ':'
    &&& 0 <= n < s.len() && is_name_start(s[n])
    &&& f.name.start == n && f.name.end == n + name_run(s, n) && f.name.value@ == s.subrange(
        n,
        n + name_run(s, n),
    )
}

pub open spec fn operation_fields_are(s: Seq<char>, i: int, fs: Seq<OperationField>) -> bool {
    sep1_are(
        s,
        i,
        fs,
        |s2: Seq<char>, p: int| operation_field_end(s2, p),
        |s2: Seq<char>, p: int, x: OperationField| operation_field_is(s2, p, x),
    )
}

/// The offset right after a schema body whose brace stands exactly at `i`,
/// or -1.
pub open spec fn schema_body_end(s: Seq<char>, i: int) -> int {
    if 0 <= i < s.len() && s[i] == '{' {
        let b = i + 1 + ws_run(s, i + 1);
        if 0 <= b <= s.len() {
            let q = sep1_list_end(s, b, |s2: Seq<char>, p: int| operation_field_end(s2, p));
            if 0 <= q <= s.len() {
                let c = q + ws_run(s, q);
                if 0 <= c < s.len() && s[c] == '}' {
                    c + 1
                } else {
                    -1
                }
            } else {
                -1
            }
        } else {
            -1
        }
    } else {
        -1
    }
}

pub open spec fn schema_body_is(s: Seq<char>, i: int, fs: Seq<OperationField>) -> bool {
    if schema_body_end(s, i) >= 0 {
        operation_fields_are(s, i + 1 + ws_run(s, i + 1), fs)
    } else {
        fs.len() == 0
    }
}

/// An `implements` clause follows the trivia at `i`.
pub open spec fn implements_present(s: Seq<char>, i: int) -> bool {
    prefix_at(s, i + ws_run(s, i), "implements"@)
}

/// Where the clause's first interface name would stand, past an optional
/// leading `&`.
pub open spec fn implements_first(s: Seq<char>, i: int) -> int {
    let q1 = i + ws_run(s, i) + "implements"@.len();
    let a = q1 + trivia_run(s, q1);
    if q1 < s.len() && (is_ws(s[q1]) || s[q1] == '#') && 0 <= a < s.len() && s[a] == '&' {
        a + 1 + ws_run(s, a + 1)
    } else {
        q1 + ws_run(s, q1)
    }
}

pub open spec fn implements_has_names(s: Seq<char>, i: int) -> bool {
    implements_present(s, i) && 0 <= implements_first(s, i) < s.len() && is_name_start(
        s[implements_first(s, i)],
    )
}

/// The offset right after the optional `implements` clause at `i`; `i`
/// itself when the keyword is absent.
pub open spec fn implements_end(s: Seq<char>, i: int) -> int {
    if implements_present(s, i) {
        let f = implements_first(s, i);
        if implements_has_names(s, i) {
            let e0 = f + name_run(s, f);
            if f < e0 <= s.len() {
                punct_names_end(s, e0, '&')
            } else {
                f
            }
        } else {
            f
        }
    } else {
        i
    }
}

/// `names` is the interface list of the clause at `i`, empty when the
/// keyword is absent or no name follows it.
pub open spec fn implements_names_are(s: Seq<char>, i: int, names: Seq<Positioned<String>>) -> bool {
    if implements_has_names(s, i) {
        let f = implements_first(s, i);
        let e0 = f + name_run(s, f);
        &&& names.len() > 0
        &&& names[0].start == f && names[0].end == e0 && names[0].value@ == s.subrange(f, e0)
        &&& f < e0 <= s.len()
        &&& punct_names_are(s, e0, names.subrange(1, names.len() as int), '&')
    } else {
        names.len() == 0
    }
}

/// A further directive location follows a `|` standing exactly at `i`.
pub open spec fn location_can(s: Seq<char>, i: int) -> bool {
    0 <= i < s.len() && s[i] == '|' && directive_location_at(s, i + 1 + ws_run(s, i + 1)) is Some
}

/// The offset right after the location starting at `g` and its trailing
/// trivia.
pub open spec fn location_item_end(s: Seq<char>, g: int) -> int {
    let e = g + directive_location_at(s, g)->Some_0.0;
    e + ws_run(s, e)
}

/// `l` is the location the text at its start denotes.
pub open spec fn location_is(s: Seq<char>, l: Positioned<DirectiveLocation>) -> bool {
    &&& directive_location_at(s, l.start as int) == Some((l.end - l.start, l.value))
    &&& l.start < l.end <= s.len()
}

/// The later locations of a `|`-separated list from `i` up to `j`.
pub open spec fn locations_chain(s: Seq<char>, i: int, j: int, ls: Seq<Positioned<DirectiveLocation>>) -> bool
    decreases ls.len(),
{
    if ls.len() == 0 {
        j == i
    } else {
        let g = i + 1 + ws_run(s, i + 1);
        &&& location_can(s, i)
        &&& ls[0].start == g
        &&& location_is(s, ls[0])
        &&& i < location_item_end(s, g) <= s.len()
        &&& locations_chain(s, location_item_end(s, g), j, ls.subrange(1, ls.len() as int))
    }
}

pub open spec fn locations_end(s: Seq<char>, i: int) -> int
    decreases s.len() - i,
{
    if location_can(s, i) {
        let g = i + 1 + ws_run(s, i + 1);
        if i < location_item_end(s, g) <= s.len() {
            locations_end(s, location_item_end(s, g))
        } else {
            i
        }
    } else {
        i
    }
}

pub open spec fn locations_are(s: Seq<char>, i: int, ls: Seq<Positioned<DirectiveLocation>>) -> bool
    decreases ls.len(),
{
    if location_can(s, i) {
        let g = i + 1 + ws_run(s, i + 1);
        &&& ls.len() > 0
        &&& ls[0].start == g
        &&& location_is(s, ls[0])
        &&& i < location_item_end(s, g) <= s.len()
        &&& locations_are(s, location_item_end(s, g), ls.subrange(1, ls.len() as int))
    } else {
        ls.len() == 0
    }
}

pub proof fn lemma_locations_snoc(
    s: Seq<char>,
    i: int,
    j: int,
    ls: Seq<Positioned<DirectiveLocation>>,
    x: Positioned<DirectiveLocation>,
)
    requires
        locations_chain(s, i, j, ls),
        location_can(s, j),
        x.start == j + 1 + ws_run(s, j + 1),
        location_is(s, x),
        j < location_item_end(s, j + 1 + ws_run(s, j + 1)) <= s.len(),
    ensures
        locations_chain(s, i, location_item_end(s, j + 1 + ws_run(s, j + 1)), ls.push(x)),
    decreases ls.len(),
{
    reveal_with_fuel(locations_chain, 3);
    if ls.len() == 0 {
        assert(ls.push(x).subrange(1, 1) =~= Seq::<Positioned<DirectiveLocation>>::empty());
    } else {
        let g = i + 1 + ws_run(s, i + 1);
        lemma_locations_snoc(s, location_item_end(s, g), j, ls.subrange(1, ls.len() as int), x);
        assert(ls.push(x).subrange(1, ls.len() as int + 1) =~= ls.subrange(1, ls.len() as int).push(
            x,
        ));
    }
}

pub proof fn lemma_locations_complete(s: Seq<char>, i: int, j: int, ls: Seq<Positioned<DirectiveLocation>>)
    requires
        locations_chain(s, i, j, ls),
        !location_can(s, j),
    ensures
        locations_are(s, i, ls),
        j == locations_end(s, i),
    decreases ls.len(),
{
    if ls.len() > 0 {
        let g = i + 1 + ws_run(s, i + 1);
        lemma_locations_complete(s, location_item_end(s, g), j, ls.subrange(1, ls.len() as int));
    }
}


/// The offset right after the scalar declaration at `i`, or -1; an
/// extension needs at least one directive.
pub open spec fn scalar_type_end(s: Seq<char>, i: int) -> int {
    let p1 = declaration_keyword_pos(s, i);
    if keyword_name_at(s, p1, "scalar"@) {
        let p2 = keyword_name_end(s, p1, "scalar"@);
        if extend_at(s, i) && !directive_start_at(s, p2 + ws_run(s, p2)) {
            -1
        } else if 0 <= p2 <= s.len() {
            directive_list_end(s, p2)
        } else {
            -1
        }
    } else {
        -1
    }
}

/// `pt` is the scalar declaration the text at its start denotes.
pub open spec fn scalar_is(s: Seq<char>, pt: Positioned<ScalarType>) -> bool {
    let i = pt.start as int;
    let p1 = declaration_keyword_pos(s, i);
    let n0 = p1 + "scalar"@.len() + trivia_run(s, p1 + "scalar"@.len());
    let p2 = keyword_name_end(s, p1, "scalar"@);
    &&& pt.value.is_extend == extend_at(s, i)
    &&& (if extend_at(s, i) {
        pt.value.description is None
    } else {
        desc_is(s, i, pt.value.description)
    })
    &&& keyword_name_at(s, p1, "scalar"@)
    &&& pt.value.name.start == n0 && pt.value.name.end == p2 && pt.value.name.value@ == s.subrange(
        n0,
        p2,
    )
    &&& directives_are(s, p2, pt.value.directive_list@)
    &&& pt.end == scalar_type_end(s, i)
    &&& i < pt.end <= s.len()
}

/// The offset right after the object declaration at `i`, or -1; an
/// extension must add interfaces, directives or a body.
pub open spec fn object_type_end(s: Seq<char>, i: int) -> int {
    let p1 = declaration_keyword_pos(s, i);
    if keyword_name_at(s, p1, "type"@) {
        let p2 = keyword_name_end(s, p1, "type"@);
        let p3 = implements_end(s, p2);
        if 0 <= p3 <= s.len() {
            let p4 = directive_list_end(s, p3);
            if 0 <= p4 <= s.len() {
                let body = field_body_end(s, p4);
                if body >= 0 {
                    body
                } else if extend_at(s, i) && !directive_start_at(s, p3 + ws_run(s, p3))
                    && !implements_has_names(s, p2) {
                    -1
                } else {
                    p4
                }
            } else {
                -1
            }
        } else {
            -1
        }
    } else {
        -1
    }
}

/// `pt` is the object declaration the text at its start denotes.
pub open spec fn object_is(s: Seq<char>, pt: Positioned<ObjectType>) -> bool {
    let i = pt.start as int;
    let p1 = declaration_keyword_pos(s, i);
    let n0 = p1 + "type"@.len() + trivia_run(s, p1 + "type"@.len());
    let p2 = keyword_name_end(s, p1, "type"@);
    let p3 = implements_end(s, p2);
    let p4 = directive_list_end(s, p3);
    &&& pt.value.is_extend == extend_at(s, i)
    &&& (if extend_at(s, i) {
        pt.value.description is None
    } else {
        desc_is(s, i, pt.value.description)
    })
    &&& keyword_name_at(s, p1, "type"@)
    &&& pt.value.name.start == n0 && pt.value.name.end == p2 && pt.value.name.value@ == s.subrange(
        n0,
        p2,
    )
    &&& implements_names_are(s, p2, pt.value.interface_list@)
    &&& directives_are(s, p3, pt.value.directive_list@)
    &&& field_body_is(s, p4, pt.value.field_list@)
    &&& pt.end == object_type_end(s, i)
    &&& i < pt.end <= s.len()
}

/// The offset right after the interface declaration at `i`, or -1.
pub open spec fn interface_type_end(s: Seq<char>, i: int) -> int {
    let p1 = declaration_keyword_pos(s, i);
    if keyword_name_at(s, p1, "interface"@) {
        let p2 = keyword_name_end(s, p1, "interface"@);
        let p3 = directive_list_end(s, p2);
        if 0 <= p3 <= s.len() {
            let body = field_body_end(s, p3);
            if body >= 0 {
                body
            } else if extend_at(s, i) && !directive_start_at(s, p2 + ws_run(s, p2)) {
                -1
            } else {
                p3
            }
        } else {
            -1
        }
    } else {
        -1
    }
}

/// `pt` is the interface declaration the text at its start denotes.
pub open spec fn interface_is(s: Seq<char>, pt: Positioned<InterfaceType>) -> bool {
    let i = pt.start as int;
    let p1 = declaration_keyword_pos(s, i);
    let n0 = p1 + "interface"@.len() + trivia_run(s, p1 + "interface"@.len());
    let p2 = keyword_name_end(s, p1, "interface"@);
    let p3 = directive_list_end(s, p2);
    &&& pt.value.is_extend == extend_at(s, i)
    &&& (if extend_at(s, i) {
        pt.value.description is None
    } else {
        desc_is(s, i, pt.value.description)
    })
    &&& keyword_name_at(s, p1, "interface"@)
    &&& pt.value.name.start == n0 && pt.value.name.end == p2 && pt.value.name.value@ == s.subrange(
        n0,
        p2,
    )
    &&& directives_are(s, p2, pt.value.directive_list@)
    &&& field_body_is(s, p3, pt.value.field_list@)
    &&& pt.end == interface_type_end(s, i)
    &&& i < pt.end <= s.len()
}

/// The offset right after the input-object declaration at `i`, or -1.
pub open spec fn input_object_type_end(s: Seq<char>, i: int) -> int {
    let p1 = declaration_keyword_pos(s, i);
    if keyword_name_at(s, p1, "input"@) {
        let p2 = keyword_name_end(s, p1, "input"@);
        let p3 = directive_list_end(s, p2);
        if 0 <= p3 <= s.len() {
            let body = field_body_end(s, p3);
            if body >= 0 {
                body
            } else if extend_at(s, i) && !directive_start_at(s, p2 + ws_run(s, p2)) {
                -1
            } else {
                p3
            }
        } else {
            -1
        }
    } else {
        -1
    }
}

/// `pt` is the input-object declaration the text at its start denotes.
pub open spec fn input_object_is(s: Seq<char>, pt: Positioned<InputObjectType>) -> bool {
    let i = pt.start as int;
    let p1 = declaration_keyword_pos(s, i);
    let n0 = p1 + "input"@.len() + trivia_run(s, p1 + "input"@.len());
    let p2 = keyword_name_end(s, p1, "input"@);
    let p3 = directive_list_end(s, p2);
    &&& pt.value.is_extend == extend_at(s, i)
    &&& (if extend_at(s, i) {
        pt.value.description is None
    } else {
        desc_is(s, i, pt.value.description)
    })
    &&& keyword_name_at(s, p1, "input"@)
    &&& pt.value.name.start == n0 && pt.value.name.end == p2 && pt.value.name.value@ == s.subrange(
        n0,
        p2,
    )
    &&& directives_are(s, p2, pt.value.directive_list@)
    &&& field_body_is(s, p3, pt.value.field_list@)
    &&& pt.end == input_object_type_end(s, i)
    &&& i < pt.end <= s.len()
}

/// A union member list's `=` follows the trivia at `i`.
pub open spec fn union_eq_at(s: Seq<char>, i: int) -> bool {
    let a = i + ws_run(s, i);
    0 <= a < s.len() && s[a] == '='
}

/// Where a union member list's first name would stand, past an optional
/// leading `|`.
pub open spec fn union_first(s: Seq<char>, i: int) -> int {
    let a = i + ws_run(s, i);
    let b0 = a + 1 + ws_run(s, a + 1);
    if 0 <= b0 < s.len() && s[b0] == '|' {
        b0 + 1 + ws_run(s, b0 + 1)
    } else {
        b0
    }
}

pub open spec fn union_has_names(s: Seq<char>, i: int) -> bool {
    union_eq_at(s, i) && 0 <= union_first(s, i) < s.len() && is_name_start(s[union_first(s, i)])
}

/// `names` is the member list of the union body at `i`, empty when the `=`
/// is absent or no name follows it.
pub open spec fn union_members_are(s: Seq<char>, i: int, names: Seq<Positioned<String>>) -> bool {
    if union_has_names(s, i) {
        let f = union_first(s, i);
        let e0 = f + name_run(s, f);
        &&& names.len() > 0
        &&& names[0].start == f && names[0].end == e0 && names[0].value@ == s.subrange(f, e0)
        &&& f < e0 <= s.len()
        &&& punct_names_are(s, e0, names.subrange(1, names.len() as int), '|')
    } else {
        names.len() == 0
    }
}

/// The offset right after the union declaration at `i`, or -1.
pub open spec fn union_type_end(s: Seq<char>, i: int) -> int {
    let p1 = declaration_keyword_pos(s, i);
    if keyword_name_at(s, p1, "union"@) {
        let p2 = keyword_name_end(s, p1, "union"@);
        let p3 = directive_list_end(s, p2);
        if 0 <= p3 <= s.len() {
            if union_eq_at(s, p3) {
                let b = union_first(s, p3);
                if union_has_names(s, p3) {
                    let e0 = b + name_run(s, b);
                    if b < e0 <= s.len() {
                        punct_names_end(s, e0, '|')
                    } else {
                        b
                    }
                } else {
                    b
                }
            } else if extend_at(s, i) && !directive_start_at(s, p2 + ws_run(s, p2)) {
                -1
            } else {
                p3
            }
        } else {
            -1
        }
    } else {
        -1
    }
}

/// `pt` is the union declaration the text at its start denotes.
pub open spec fn union_is(s: Seq<char>, pt: Positioned<UnionType>) -> bool {
    let i = pt.start as int;
    let p1 = declaration_keyword_pos(s, i);
    let n0 = p1 + "union"@.len() + trivia_run(s, p1 + "union"@.len());
    let p2 = keyword_name_end(s, p1, "union"@);
    let p3 = directive_list_end(s, p2);
    &&& pt.value.is_extend == extend_at(s, i)
    &&& (if extend_at(s, i) {
        pt.value.description is None
    } else {
        desc_is(s, i, pt.value.description)
    })
    &&& keyword_name_at(s, p1, "union"@)
    &&& pt.value.name.start == n0 && pt.value.name.end == p2 && pt.value.name.value@ == s.subrange(
        n0,
        p2,
    )
    &&& directives_are(s, p2, pt.value.directive_list@)
    &&& union_members_are(s, p3, pt.value.member_list@)
    &&& pt.end == union_type_end(s, i)
    &&& i < pt.end <= s.len()
}

/// The offset right after the enum declaration at `i`, or -1.
pub open spec fn enum_type_end(s: Seq<char>, i: int) -> int {
    let p1 = declaration_keyword_pos(s, i);
    if keyword_name_at(s, p1, "enum"@) {
        let p2 = keyword_name_end(s, p1, "enum"@);
        let p3 = directive_list_end(s, p2);
        if 0 <= p3 <= s.len() {
            let body = enum_body_end(s, p3);
            if body >= 0 {
                body
            } else if extend_at(s, i) && !directive_start_at(s, p2 + ws_run(s, p2)) {
                -1
            } else {
                p3
            }
        } else {
            -1
        }
    } else {
        -1
    }
}

/// `pt` is the enum declaration the text at its start denotes.
pub open spec fn enum_is(s: Seq<char>, pt: Positioned<EnumType>) -> bool {
    let i = pt.start as int;
    let p1 = declaration_keyword_pos(s, i);
    let n0 = p1 + "enum"@.len() + trivia_run(s, p1 + "enum"@.len());
    let p2 = keyword_name_end(s, p1, "enum"@);
    let p3 = directive_list_end(s, p2);
    &&& pt.value.is_extend == extend_at(s, i)
    &&& (if extend_at(s, i) {
        pt.value.description is None
    } else {
        desc_is(s, i, pt.value.description)
    })
    &&& keyword_name_at(s, p1, "enum"@)
    &&& pt.value.name.start == n0 && pt.value.name.end == p2 && pt.value.name.value@ == s.subrange(
        n0,
        p2,
    )
    &&& directives_are(s, p2, pt.value.directive_list@)
    &&& enum_body_is(s, p3, pt.value.member_list@)
    &&& pt.end == enum_type_end(s, i)
    &&& i < pt.end <= s.len()
}

/// The offset right after the schema declaration at `i`, or -1; the keyword
/// needs a trailing separator and an extension must add something.
pub open spec fn schema_definition_end(s: Seq<char>, i: int) -> int {
    let p1 = declaration_keyword_pos(s, i);
    let k = p1 + "schema"@.len();
    if prefix_at(s, p1, "schema"@) && k < s.len() && (is_ws(s[k]) || s[k] == '#') {
        let p3 = k + trivia_run(s, k);
        if 0 <= p3 <= s.len() {
            let p4 = directive_list_end(s, p3);
            if 0 <= p4 <= s.len() {
                let body = schema_body_end(s, p4);
                if body >= 0 {
                    body
                } else if extend_at(s, i) && !directive_start_at(s, p3 + ws_run(s, p3)) {
                    -1
                } else {
                    p4
                }
            } else {
                -1
            }
        } else {
            -1
        }
    } else {
        -1
    }
}

/// `pd` is the schema declaration the text at its start denotes.
pub open spec fn schema_is(s: Seq<char>, pd: Positioned<SchemaDefinition>) -> bool {
    let i = pd.start as int;
    let p1 = declaration_keyword_pos(s, i);
    let k = p1 + "schema"@.len();
    let p3 = k + trivia_run(s, k);
    let p4 = directive_list_end(s, p3);
    &&& pd.value.is_extend == extend_at(s, i)
    &&& (if extend_at(s, i) {
        pd.value.description is None
    } else {
        desc_is(s, i, pd.value.description)
    })
    &&& prefix_at(s, p1, "schema"@) && k < s.len() && (is_ws(s[k]) || s[k] == '#')
    &&& directives_are(s, p3, pd.value.directive_list@)
    &&& schema_body_is(s, p4, pd.value.field_list@)
    &&& pd.end == schema_definition_end(s, i)
    &&& i < pd.end <= s.len()
}

/// Where a directive definition's location list starts: after `on`, with
/// an optional leading `|` after a separator.
pub open spec fn dd_locations_pos(s: Seq<char>, p6: int) -> int {
    let a = p6 + trivia_run(s, p6);
    if p6 < s.len() && (is_ws(s[p6]) || s[p6] == '#') && 0 <= a < s.len() && s[a] == '|' {
        a + 1 + ws_run(s, a + 1)
    } else {
        p6 + ws_run(s, p6)
    }
}

/// `ls` is the location list standing at `c`, empty when no location
/// follows.
pub open spec fn dd_locations_are(s: Seq<char>, c: int, ls: Seq<Positioned<DirectiveLocation>>) -> bool {
    let d0 = c + ws_run(s, c);
    if directive_location_at(s, d0) is Some {
        let e0 = d0 + directive_location_at(s, d0)->Some_0.0;
        &&& ls.len() > 0
        &&& ls[0].start == d0
        &&& location_is(s, ls[0])
        &&& c < e0 + ws_run(s, e0) <= s.len()
        &&& locations_are(s, e0 + ws_run(s, e0), ls.subrange(1, ls.len() as int))
    } else {
        ls.len() == 0
    }
}

/// The offset right after the directive definition at `i`, or -1.
pub open spec fn directive_definition_end(s: Seq<char>, i: int) -> int {
    if 0 <= i <= s.len() {
        let p0 = description_end(s, i);
        if i <= p0 && prefix_at(s, p0, "directive"@) {
            let p2 = p0 + "directive"@.len() + ws_run(s, p0 + "directive"@.len());
            if directive_start_at(s, p2) {
                let n0 = p2 + 1 + ws_run(s, p2 + 1);
                let n1 = n0 + name_run(s, n0);
                let p4 = n1 + ws_run(s, n1);
                if 0 <= p4 <= s.len() {
                    let p5 = field_argument_list_end(s, p4);
                    if prefix_at(s, p5, "on"@) {
                        let c = dd_locations_pos(s, p5 + "on"@.len());
                        let d0 = c + ws_run(s, c);
                        if directive_location_at(s, d0) is Some {
                            let e0 = d0 + directive_location_at(s, d0)->Some_0.0;
                            let fe = e0 + ws_run(s, e0);
                            if c < fe <= s.len() {
                                locations_end(s, fe)
                            } else {
                                -1
                            }
                        } else if 0 <= c <= s.len() {
                            c
                        } else {
                            -1
                        }
                    } else {
                        -1
                    }
                } else {
                    -1
                }
            } else {
                -1
            }
        } else {
            -1
        }
    } else {
        -1
    }
}

/// `pd` is the directive definition the text at its start denotes.
pub open spec fn directive_definition_is(s: Seq<char>, pd: Positioned<DirectiveDefinition>) -> bool {
    let i = pd.start as int;
    let p0 = description_end(s, i);
    let p2 = p0 + "directive"@.len() + ws_run(s, p0 + "directive"@.len());
    let n0 = p2 + 1 + ws_run(s, p2 + 1);
    let n1 = n0 + name_run(s, n0);
    let p4 = n1 + ws_run(s, n1);
    let p5 = field_argument_list_end(s, p4);
    let c = dd_locations_pos(s, p5 + "on"@.len());
    &&& desc_is(s, i, pd.value.description)
    &&& prefix_at(s, p0, "directive"@)
    &&& directive_start_at(s, p2)
    &&& pd.value.name.start == n0 && pd.value.name.end == n1 && pd.value.name.value@ == s.subrange(
        n0,
        n1,
    )
    &&& fargs_are(s, p4, pd.value.argument_list@)
    &&& prefix_at(s, p5, "on"@)
    &&& dd_locations_are(s, c, pd.value.location_list@)
    &&& pd.end == directive_definition_end(s, i)
    &&& i < pd.end <= s.len()
}

/// The offset right after the type declaration of any kind at `i`, with the
/// alternatives tried in declared order, or -1.
pub open spec fn type_definition_end(s: Seq<char>, i: int) -> int {
    if scalar_type_end(s, i) >= 0 {
        scalar_type_end(s, i)
    } else if object_type_end(s, i) >= 0 {
        object_type_end(s, i)
    } else if interface_type_end(s, i) >= 0 {
        interface_type_end(s, i)
    } else if union_type_end(s, i) >= 0 {
        union_type_end(s, i)
    } else if enum_type_end(s, i) >= 0 {
        enum_type_end(s, i)
    } else if input_object_type_end(s, i) >= 0 {
        input_object_type_end(s, i)
    } else {
        -1
    }
}

/// `td` is the type declaration the text at `i` denotes, under the declared
/// alternative order.
pub open spec fn type_definition_is(s: Seq<char>, i: int, td: TypeDefinition) -> bool {
    if scalar_type_end(s, i) >= 0 {
        td matches TypeDefinition::Scalar(p) && p.start == i && scalar_is(s, p)
    } else if object_type_end(s, i) >= 0 {
        td matches TypeDefinition::Object(p) && p.start == i && object_is(s, p)
    } else if interface_type_end(s, i) >= 0 {
        td matches TypeDefinition::Interface(p) && p.start == i && interface_is(s, p)
    } else if union_type_end(s, i) >= 0 {
        td matches TypeDefinition::Union(p) && p.start == i && union_is(s, p)
    } else if enum_type_end(s, i) >= 0 {
        td matches TypeDefinition::Enum(p) && p.start == i && enum_is(s, p)
    } else if input_object_type_end(s, i) >= 0 {
        td matches TypeDefinition::InputObject(p) && p.start == i && input_object_is(s, p)
    } else {
        false
    }
}

/// Decodes one directive location identifier against the closed table;
/// an unknown identifier fails the rule.
#[verifier::rlimit(30)]
pub(crate) fn directive_location(input: &str, pos: usize) -> (r: Result<
    (usize, DirectiveLocation),
    ParsingError,
>)
    requires
        pos <= input@.len(),
    ensures
        r is Ok <==> directive_location_at(input@, pos as int) is Some,
        r matches Ok((np, loc)) ==> pos < np <= input@.len() && directive_location_at(
            input@,
            pos as int,
        ) == Some((np - pos as int, loc)),
        r matches Err(e) ==> e.offset == pos,
{
    proof {
        reveal_strlit("SCHEMA");
        reveal_strlit("SCALAR");
        reveal_strlit("OBJECT");
        reveal_strlit("FIELD_DEFINITION");
        reveal_strlit("ARGUMENT_DEFINITION");
        reveal_strlit("INTERFACE");
        reveal_strlit("UNION");
        reveal_strlit("ENUM_VALUE");
        reveal_strlit("ENUM");
        reveal_strlit("INPUT_OBJECT");
        reveal_strlit("INPUT_FIELD_DEFINITION");
        reveal_strlit("QUERY");
        reveal_strlit("MUTATION");
        reveal_strlit("SUBSCRIPTION");
        reveal_strlit("FIELD");
        reveal_strlit("FRAGMENT_DEFINITION");
        reveal_strlit("FRAGMENT_SPREAD");
        reveal_strlit("INLINE_FRAGMENT");
    }
    match tag(input, pos, "SCHEMA") {
        Ok((np, _)) => {
            return Ok((np, DirectiveLocation::TypeSystem(TypeSystemDirectiveLocation::Schema)));
        },
        Err(_) => {},
    }
    match tag(input, pos, "SCALAR") {
        Ok((np, _)) => {
            return Ok((np, DirectiveLocation::TypeSystem(TypeSystemDirectiveLocation::Scalar)));
        },
        Err(_) => {},
    }
    match tag(input, pos, "OBJECT") {
        Ok((np, _)) => {
            return Ok((np, DirectiveLocation::TypeSystem(TypeSystemDirectiveLocation::Object)));
        },
        Err(_) => {},
    }
    match tag(input, pos, "FIELD_DEFINITION") {
        Ok((np, _)) => {
            return Ok(
                (np, DirectiveLocation::TypeSystem(TypeSystemDirectiveLocation::FieldDefinition)),
            );
        },
        Err(_) => {},
    }
    match tag(input, pos, "ARGUMENT_DEFINITION") {
        Ok((np, _)) => {
            return Ok(
                (np, DirectiveLocation::TypeSystem(TypeSystemDirectiveLocation::ArgumentDefinition)),
            );
        },
        Err(_) => {},
    }
    match tag(input, pos, "INTERFACE") {
        Ok((np, _)) => {
            return Ok((np, DirectiveLocation::TypeSystem(TypeSystemDirectiveLocation::Interface)));
        },
        Err(_) => {},
    }
    match tag(input, pos, "UNION") {
        Ok((np, _)) => {
            return Ok((np, DirectiveLocation::TypeSystem(TypeSystemDirectiveLocation::Union)));
        },
        Err(_) => {},
    }
    match tag(input, pos, "ENUM_VALUE") {
        Ok((np, _)) => {
            return Ok((np, DirectiveLocation::TypeSystem(TypeSystemDirectiveLocation::EnumValue)));
        },
        Err(_) => {},
    }
    match tag(input, pos, "ENUM") {
        Ok((np, _)) => {
            return Ok((np, DirectiveLocation::TypeSystem(TypeSystemDirectiveLocation::Enum)));
        },
        Err(_) => {},
    }
    match tag(input, pos, "INPUT_OBJECT") {
        Ok((np, _)) => {
            return Ok((np, DirectiveLocation::TypeSystem(TypeSystemDirectiveLocation::InputObject)));
        },
        Err(_) => {},
    }
    match tag(input, pos, "INPUT_FIELD_DEFINITION") {
        Ok((np, _)) => {
            return Ok(
                (
                    np,
                    DirectiveLocation::TypeSystem(TypeSystemDirectiveLocation::InputFieldDefinition),
                ),
            );
        },
        Err(_) => {},
    }
    match tag(input, pos, "QUERY") {
        Ok((np, _)) => {
            return Ok((np, DirectiveLocation::Executable(ExecutableDirectiveLocation::Query)));
        },
        Err(_) => {},
    }
    match tag(input, pos, "MUTATION") {
        Ok((np, _)) => {
            return Ok((np, DirectiveLocation::Executable(ExecutableDirectiveLocation::Mutation)));
        },
        Err(_) => {},
    }
    match tag(input, pos, "SUBSCRIPTION") {
        Ok((np, _)) => {
            return Ok((np, DirectiveLocation::Executable(ExecutableDirectiveLocation::Subscription)));
        },
        Err(_) => {},
    }
    match tag(input, pos, "FIELD") {
        Ok((np, _)) => {
            return Ok((np, DirectiveLocation::Executable(ExecutableDirectiveLocation::Field)));
        },
        Err(_) => {},
    }
    match tag(input, pos, "FRAGMENT_DEFINITION") {
        Ok((np, _)) => {
            return Ok(
                (np, DirectiveLocation::Executable(ExecutableDirectiveLocation::FragmentDefinition)),
            );
        },
        Err(_) => {},
    }
    match tag(input, pos, "FRAGMENT_SPREAD") {
        Ok((np, _)) => {
            return Ok(
                (np, DirectiveLocation::Executable(ExecutableDirectiveLocation::FragmentSpread)),
            );
        },
        Err(_) => {},
    }
    match tag(input, pos, "INLINE_FRAGMENT") {
        Ok((np, _)) => Ok(
            (np, DirectiveLocation::Executable(ExecutableDirectiveLocation::InlineFragment)),
        ),
        Err(e) => Err(e),
    }
}

/// The offset where a declaration's keyword stands, past the optional
/// `extend` prefix and the optional description (never attempted when
/// extending).
pub open spec fn declaration_keyword_pos(s: Seq<char>, i: int) -> int {
    if extend_at(s, i) {
        i + "extend"@.len() + trivia_run(s, i + "extend"@.len())
    } else {
        description_end(s, i)
    }
}

/// A scalar declaration; when extending, the directive list is the body and
/// must be non-empty.
pub(crate) fn scalar_type(input: &str, pos: usize) -> (r: Result<
    (usize, Positioned<ScalarType>),
    ParsingError,
>)
    requires
        pos <= input@.len(),
    ensures
        r is Ok <==> scalar_type_end(input@, pos as int) >= 0,
        r matches Ok((np, pt)) ==> np == scalar_type_end(input@, pos as int) && scalar_is(
            input@,
            pt,
        ),
        r matches Ok((np, pt)) ==> pt.value.is_extend == extend_at(input@, pos as int),
        r matches Ok((np, pt)) ==> pt.start == pos && pt.end == np && pos < np <= input@.len()
            && scalar_wf(pt.value, pos as int, np as int),
        r matches Ok((np, pt)) ==> (pt.value.is_extend ==> pt.value.directive_list@.len() > 0),
        r matches Ok((np, pt)) ==> pt.value.name.value@ == input@.subrange(
            pt.value.name.start as int,
            pt.value.name.end as int,
        ),
        r matches Err(e) ==> e.offset <= input@.len(),
{
    let (p0, is_extend) = extend(input, pos);
    let (p1, desc) = description(input, p0, is_extend);
    let (p2, pname) = match definition_type(input, p1, "scalar") {
        Ok(x) => x,
        Err(e) => {
            return Err(e);
        },
    };
    let (np, dl) = match directive_list(input, p2, is_extend) {
        Ok(x) => x,
        Err(e) => {
            return Err(e);
        },
    };
    Ok((
        np,
        Positioned {
            start: pos,
            end: np,
            value: ScalarType { is_extend, description: desc, name: pname, directive_list: dl },
        },
    ))
}

/// The optional `implements A & B` clause of an object declaration.
fn implements_list(input: &str, pos: usize) -> (r: (usize, Vec<Positioned<String>>))
    requires
        pos <= input@.len(),
    ensures
        pos <= r.0 <= input@.len(),
        spans_ok(r.1@, pos as int, r.0 as int),
        r.0 == implements_end(input@, pos as int),
        implements_names_are(input@, pos as int, r.1@),
{
    proof {
        reveal_strlit("implements");
    }
    let ghost s = input@;
    let q0 = ignore_token0(input, pos);
    let (q1, _) = match tag(input, q0, "implements") {
        Ok(x) => x,
        Err(_) => {
            return (pos, Vec::new());
        },
    };
    // a leading `&` may follow the keyword after a separator
    let mut q2: usize = 0;
    let mut leading = false;
    match ignore_token1(input, q1) {
        Ok((a, _)) => match expect_char(input, a, '&') {
            Ok((b, _)) => {
                q2 = ignore_token0(input, b);
                leading = true;
            },
            Err(_) => {},
        },
        Err(_) => {},
    }
    if !leading {
        q2 = ignore_token0(input, q1);
    }
    proof {
        assert(q2 == implements_first(s, pos as int));
    }
    let mut names: Vec<Positioned<String>> = Vec::new();
    let mut p = q2;
    match name(input, q2) {
        Ok((c, nm)) => {
            proof {
                assert(names@.push(
                    Positioned { start: q2, end: c, value: nm },
                ).subrange(1, 1) =~= Seq::<Positioned<String>>::empty());
            }
            names.push(Positioned { start: q2, end: c, value: nm });
            p = c;
            loop
                invariant
                    pos <= q2 <= p <= s.len(),
                    s == input@,
                    spans_ok(names@, pos as int, p as int),
                    names@.len() > 0,
                    names@[0].start == q2 && names@[0].end == q2 + name_run(s, q2 as int),
                    names@[0].value@ == s.subrange(q2 as int, q2 + name_run(s, q2 as int)),
                    q2 < names@[0].end <= s.len(),
                    punct_names_chain(
                        s,
                        q2 + name_run(s, q2 as int),
                        p as int,
                        names@.subrange(1, names@.len() as int),
                        '&',
                    ),
                ensures
                    pos <= q2 <= p <= s.len(),
                    names@.len() > 0,
                    spans_ok(names@, pos as int, p as int),
                    names@[0].start == q2 && names@[0].end == q2 + name_run(s, q2 as int),
                    names@[0].value@ == s.subrange(q2 as int, q2 + name_run(s, q2 as int)),
                    q2 < names@[0].end <= s.len(),
                    punct_names_are(
                        s,
                        q2 + name_run(s, q2 as int),
                        names@.subrange(1, names@.len() as int),
                        '&',
                    ),
                    p as int == punct_names_end(s, q2 + name_run(s, q2 as int), '&'),
                decreases s.len() - p,
            {
                let d = ignore_token0(input, p);
                let e = match expect_char(input, d, '&') {
                    Ok((e, _)) => e,
                    Err(_) => {
                        proof {
                            lemma_punct_names_complete(
                                s,
                                q2 + name_run(s, q2 as int),
                                p as int,
                                names@.subrange(1, names@.len() as int),
                                '&',
                            );
                        }
                        break ;
                    },
                };
                let f = ignore_token0(input, e);
                match name(input, f) {
                    Ok((g, nm2)) => {
                        proof {
                            lemma_punct_names_snoc(
                                s,
                                q2 + name_run(s, q2 as int),
                                p as int,
                                names@.subrange(1, names@.len() as int),
                                Positioned { start: f, end: g, value: nm2 },
                                '&',
                            );
                            assert(names@.push(
                                Positioned { start: f, end: g, value: nm2 },
                            ).subrange(1, names@.len() as int + 1) =~= names@.subrange(
                                1,
                                names@.len() as int,
                            ).push(Positioned { start: f, end: g, value: nm2 }));
                        }
                        names.push(Positioned { start: f, end: g, value: nm2 });
                        p = g;
                    },
                    Err(_) => {
                        proof {
                            lemma_punct_names_complete(
                                s,
                                q2 + name_run(s, q2 as int),
                                p as int,
                                names@.subrange(1, names@.len() as int),
                                '&',
                            );
                        }
                        break ;
                    },
                }
            }
        },
        Err(_) => {},
    }
    (p, names)
}

/// One field declaration: optional description, name, optional arguments,
/// `:`, type, directives.
pub(crate) fn field_definition(input: &str, pos: usize) -> (r: Result<
    (usize, Positioned<FieldDefinition>),
    ParsingError,
>)
    requires
        pos <= input@.len(),
    ensures
        r is Ok <==> field_definition_end(input@, pos as int) >= 0,
        r matches Ok((np, pf)) ==> np == field_definition_end(input@, pos as int) && field_def_is(
            input@,
            pf,
        ),
        r matches Ok((np, pf)) ==> pf.start == pos && pf.end == np && pos < np <= input@.len()
            && field_def_wf(pf.value, pos as int, np as int),
        r matches Ok((np, pf)) ==> pf.value.name.value@ == input@.subrange(
            pf.value.name.start as int,
            pf.value.name.end as int,
        ),
        r matches Err(e) ==> e.offset <= input@.len(),
{
    let (p0, desc) = description(input, pos, false);
    let (p1, pname) = match name(input, p0) {
        Ok((np, nm)) => (np, Positioned { start: p0, end: np, value: nm }),
        Err(e) => {
            return Err(e);
        },
    };
    let p2 = ignore_token0(input, p1);
    let (p3, al) = field_argument_list(input, p2);
    let (p4, _) = match expect_char(input, p3, ':') {
        Ok(x) => x,
        Err(e) => {
            return Err(e);
        },
    };
    let p5 = ignore_token0(input, p4);
    let (p6, pty) = match ty(input, p5) {
        Ok((np, t)) => (np, Positioned { start: p5, end: np, value: t }),
        Err(e) => {
            return Err(e);
        },
    };
    let (np, dl) = match directive_list(input, p6, false) {
        Ok(x) => x,
        Err(e) => {
            return Err(e);
        },
    };
    Ok((
        np,
        Positioned {
            start: pos,
            end: np,
            value: FieldDefinition {
                description: desc,
                name: pname,
                argument_list: al,
                ty: pty,
                directive_list: dl,
            },
        },
    ))
}

/// An optional braced field list.  With `should_exist` (an extension that
/// attached nothing else so far) an absent body fails at the current
/// offset; otherwise an absent body is an empty list consuming nothing.
pub(crate) fn field_definition_list(input: &str, pos: usize, should_exist: bool) -> (r: Result<
    (usize, Vec<Positioned<FieldDefinition>>),
    ParsingError,
>)
    requires
        pos <= input@.len(),
    ensures
        r matches Ok((np, fl)) ==> pos <= np <= input@.len() && field_defs_wf(
            fl@,
            pos as int,
            np as int,
        ),
        r is Ok <==> !should_exist || field_body_end(input@, pos as int) >= 0,
        r matches Ok((np, fl)) ==> field_body_is(input@, pos as int, fl@) && (field_body_end(
            input@,
            pos as int,
        ) >= 0 ==> np == field_body_end(input@, pos as int)) && (field_body_end(input@, pos as int)
            < 0 ==> np == pos),
        r matches Err(e) ==> e.offset == pos && e.kind == ErrorKind::Structure,
{
    let ghost s = input@;
    let q0 = ignore_token0(input, pos);
    let mut body: Option<(usize, Vec<Positioned<FieldDefinition>>)> = None;
    match expect_char(input, q0, '{') {
        Ok((q1, _)) => {
            let b = ignore_token0(input, q1);
            let mut p = b;
            let mut fields: Vec<Positioned<FieldDefinition>> = Vec::new();
            match field_definition(input, b) {
                Ok((p2, f)) => {
                    proof {
                        assert(fields@.push(f).subrange(1, 1) =~= Seq::<
                            Positioned<FieldDefinition>,
                        >::empty());
                    }
                    fields.push(f);
                    p = p2;
                    loop
                        invariant
                            pos < b <= p <= s.len(),
                            s == input@,
                            field_defs_wf(fields@, pos as int, p as int),
                            fields@.len() > 0,
                            fields@[0].start == b,
                            field_def_is(s, fields@[0]),
                            sep1_chain(
                                s,
                                field_definition_end(s, b as int),
                                p as int,
                                fields@.subrange(1, fields@.len() as int),
                                |s2: Seq<char>, pp: int| field_definition_end(s2, pp),
                                |s2: Seq<char>, pp: int, x: Positioned<FieldDefinition>| x.start
                                    == pp && field_def_is(s2, x),
                            ),
                        ensures
                            pos < b <= p <= s.len(),
                            fields@.len() > 0,
                            field_defs_wf(fields@, pos as int, p as int),
                            field_defs_are(s, b as int, fields@),
                            p as int == sep1_list_end(
                                s,
                                b as int,
                                |s2: Seq<char>, pp: int| field_definition_end(s2, pp),
                            ),
                        decreases s.len() - p,
                    {
                        let q = match ignore_token1(input, p) {
                            Ok((q, _)) => q,
                            Err(_) => {
                                proof {
                                    lemma_sep1_complete(
                                        s,
                                        b as int,
                                        p as int,
                                        fields@,
                                        |s2: Seq<char>, pp: int| field_definition_end(s2, pp),
                                        |s2: Seq<char>, pp: int, x: Positioned<FieldDefinition>|
                                            x.start == pp && field_def_is(s2, x),
                                    );
                                }
                                break ;
                            },
                        };
                        match field_definition(input, q) {
                            Ok((p3, f2)) => {
                                proof {
                                    lemma_sep1_snoc(
                                        s,
                                        field_definition_end(s, b as int),
                                        p as int,
                                        fields@.subrange(1, fields@.len() as int),
                                        f2,
                                        |s2: Seq<char>, pp: int| field_definition_end(s2, pp),
                                        |s2: Seq<char>, pp: int, x: Positioned<FieldDefinition>|
                                            x.start == pp && field_def_is(s2, x),
                                    );
                                    assert(fields@.push(f2).subrange(1, fields@.len() as int + 1)
                                        =~= fields@.subrange(1, fields@.len() as int).push(f2));
                                }
                                fields.push(f2);
                                p = p3;
                            },
                            Err(_) => {
                                proof {
                                    lemma_sep1_complete(
                                        s,
                                        b as int,
                                        p as int,
                                        fields@,
                                        |s2: Seq<char>, pp: int| field_definition_end(s2, pp),
                                        |s2: Seq<char>, pp: int, x: Positioned<FieldDefinition>|
                                            x.start == pp && field_def_is(s2, x),
                                    );
                                }
                                break ;
                            },
                        }
                    }
                },
                Err(_) => {
                    assert(p as int == sep1_list_end(
                        s,
                        b as int,
                        |s2: Seq<char>, pp: int| field_definition_end(s2, pp),
                    ));
                    assert(field_defs_are(s, b as int, fields@));
                },
            }
            let p4 = ignore_token0(input, p);
            match expect_char(input, p4, '}') {
                Ok((p5, _)) => {
                    body = Some((p5, fields));
                },
                Err(_) => {},
            }
        },
        Err(_) => {},
    }
    match body {
        Some((np, fl)) => Ok((np, fl)),
        None => {
            if should_exist {
                Err(ParsingError { offset: pos, kind: ErrorKind::Structure })
            } else {
                Ok((pos, Vec::new()))
            }
        },
    }
}

/// An object type declaration, with its optional `implements` clause; the
/// interface list counts toward the extension-must-add-something policy.
pub(crate) fn object_type(input: &str, pos: usize) -> (r: Result<
    (usize, Positioned<ObjectType>),
    ParsingError,
>)
    requires
        pos <= input@.len(),
    ensures
        r is Ok <==> object_type_end(input@, pos as int) >= 0,
        r matches Ok((np, pt)) ==> np == object_type_end(input@, pos as int) && object_is(input@, pt),
        r matches Ok((np, pt)) ==> keyword_name_at(
            input@,
            declaration_keyword_pos(input@, pos as int),
            "type"@,
        ) && pt.value.is_extend == extend_at(input@, pos as int),
        r matches Ok((np, pt)) ==> pt.start == pos && pt.end == np && pos < np <= input@.len()
            && object_wf(pt.value, pos as int, np as int),
        r matches Ok((np, pt)) ==> pt.value.name.value@ == input@.subrange(
            pt.value.name.start as int,
            pt.value.name.end as int,
        ),
        r matches Err(e) ==> e.offset <= input@.len(),
{
    let (p0, is_extend) = extend(input, pos);
    let (p1, desc) = description(input, p0, is_extend);
    let (p2, pname) = match definition_type(input, p1, "type") {
        Ok(x) => x,
        Err(e) => {
            return Err(e);
        },
    };
    let (p3, interface_list) = implements_list(input, p2);
    let (p4, dl) = match directive_list(input, p3, false) {
        Ok(x) => x,
        Err(e) => {
            return Err(e);
        },
    };
    let should_exist = is_extend && dl.len() == 0 && interface_list.len() == 0;
    let (np, fl) = match field_definition_list(input, p4, should_exist) {
        Ok(x) => x,
        Err(e) => {
            return Err(e);
        },
    };
    Ok((
        np,
        Positioned {
            start: pos,
            end: np,
            value: ObjectType {
                is_extend,
                description: desc,
                interface_list,
                name: pname,
                field_list: fl,
                directive_list: dl,
            },
        },
    ))
}

/// An interface declaration.
pub(crate) fn interface_type(input: &str, pos: usize) -> (r: Result<
    (usize, Positioned<InterfaceType>),
    ParsingError,
>)
    requires
        pos <= input@.len(),
    ensures
        r is Ok <==> interface_type_end(input@, pos as int) >= 0,
        r matches Ok((np, pt)) ==> np == interface_type_end(input@, pos as int) && interface_is(input@, pt),
        r matches Ok((np, pt)) ==> keyword_name_at(
            input@,
            declaration_keyword_pos(input@, pos as int),
            "interface"@,
        ) && pt.value.is_extend == extend_at(input@, pos as int),
        r matches Ok((np, pt)) ==> pt.start == pos && pt.end == np && pos < np <= input@.len()
            && interface_wf(pt.value, pos as int, np as int),
        r matches Ok((np, pt)) ==> pt.value.name.value@ == input@.subrange(
            pt.value.name.start as int,
            pt.value.name.end as int,
        ),
        r matches Err(e) ==> e.offset <= input@.len(),
{
    let (p0, is_extend) = extend(input, pos);
    let (p1, desc) = description(input, p0, is_extend);
    let (p2, pname) = match definition_type(input, p1, "interface") {
        Ok(x) => x,
        Err(e) => {
            return Err(e);
        },
    };
    let (p3, dl) = match directive_list(input, p2, false) {
        Ok(x) => x,
        Err(e) => {
            return Err(e);
        },
    };
    let (np, fl) = match field_definition_list(input, p3, is_extend && dl.len() == 0) {
        Ok(x) => x,
        Err(e) => {
            return Err(e);
        },
    };
    Ok((
        np,
        Positioned {
            start: pos,
            end: np,
            value: InterfaceType {
                is_extend,
                description: desc,
                name: pname,
                field_list: fl,
                directive_list: dl,
            },
        },
    ))
}

/// An input-object declaration.
pub(crate) fn input_object_type(input: &str, pos: usize) -> (r: Result<
    (usize, Positioned<InputObjectType>),
    ParsingError,
>)
    requires
        pos <= input@.len(),
    ensures
        r is Ok <==> input_object_type_end(input@, pos as int) >= 0,
        r matches Ok((np, pt)) ==> np == input_object_type_end(input@, pos as int) && input_object_is(input@, pt),
        r matches Ok((np, pt)) ==> keyword_name_at(
            input@,
            declaration_keyword_pos(input@, pos as int),
            "input"@,
        ) && pt.value.is_extend == extend_at(input@, pos as int),
        r matches Ok((np, pt)) ==> pt.start == pos && pt.end == np && pos < np <= input@.len()
            && input_object_wf(pt.value, pos as int, np as int),
        r matches Ok((np, pt)) ==> pt.value.name.value@ == input@.subrange(
            pt.value.name.start as int,
            pt.value.name.end as int,
        ),
        r matches Err(e) ==> e.offset <= input@.len(),
{
    let (p0, is_extend) = extend(input, pos);
    let (p1, desc) = description(input, p0, is_extend);
    let (p2, pname) = match definition_type(input, p1, "input") {
        Ok(x) => x,
        Err(e) => {
            return Err(e);
        },
    };
    let (p3, dl) = match directive_list(input, p2, false) {
        Ok(x) => x,
        Err(e) => {
            return Err(e);
        },
    };
    let (np, fl) = match field_definition_list(input, p3, is_extend && dl.len() == 0) {
        Ok(x) => x,
        Err(e) => {
            return Err(e);
        },
    };
    Ok((
        np,
        Positioned {
            start: pos,
            end: np,
            value: InputObjectType {
                is_extend,
                description: desc,
                name: pname,
                field_list: fl,
                directive_list: dl,
            },
        },
    ))
}

/// A union declaration: an optional `= A | B` member list, a leading `|`
/// allowed; an absent member list on an extension with no directives fails.
pub(crate) fn union_type(input: &str, pos: usize) -> (r: Result<
    (usize, Positioned<UnionType>),
    ParsingError,
>)
    requires
        pos <= input@.len(),
    ensures
        r is Ok <==> union_type_end(input@, pos as int) >= 0,
        r matches Ok((np, pt)) ==> np == union_type_end(input@, pos as int) && union_is(input@, pt),
        r matches Ok((np, pt)) ==> keyword_name_at(
            input@,
            declaration_keyword_pos(input@, pos as int),
            "union"@,
        ) && pt.value.is_extend == extend_at(input@, pos as int),
        r matches Ok((np, pt)) ==> pt.start == pos && pt.end == np && pos < np <= input@.len()
            && union_wf(pt.value, pos as int, np as int),
        r matches Ok((np, pt)) ==> pt.value.name.value@ == input@.subrange(
            pt.value.name.start as int,
            pt.value.name.end as int,
        ),
        r matches Err(e) ==> e.offset <= input@.len(),
{
    let ghost s = input@;
    let (p0, is_extend) = extend(input, pos);
    let (p1, desc) = description(input, p0, is_extend);
    let (p2, pname) = match definition_type(input, p1, "union") {
        Ok(x) => x,
        Err(e) => {
            return Err(e);
        },
    };
    let (p3, dl) = match directive_list(input, p2, false) {
        Ok(x) => x,
        Err(e) => {
            return Err(e);
        },
    };
    let a = ignore_token0(input, p3);
    let mut member_list: Vec<Positioned<String>> = Vec::new();
    let np: usize;
    match expect_char(input, a, '=') {
        Ok((b0, _)) => {
            let mut b = ignore_token0(input, b0);
            match expect_char(input, b, '|') {
                Ok((c, _)) => {
                    b = ignore_token0(input, c);
                },
                Err(_) => {},
            }
            proof {
                assert(b == union_first(s, p3 as int));
            }
            let mut p = b;
            match name(input, b) {
                Ok((c1, nm)) => {
                    proof {
                        assert(member_list@.push(
                            Positioned { start: b, end: c1, value: nm },
                        ).subrange(1, 1) =~= Seq::<Positioned<String>>::empty());
                    }
                    member_list.push(Positioned { start: b, end: c1, value: nm });
                    p = c1;
                    loop
                        invariant
                            pos <= b <= p <= s.len(),
                            p3 <= p,
                            s == input@,
                            spans_ok(member_list@, pos as int, p as int),
                            member_list@.len() > 0,
                            member_list@[0].start == b && member_list@[0].end == b + name_run(
                                s,
                                b as int,
                            ),
                            member_list@[0].value@ == s.subrange(
                                b as int,
                                b + name_run(s, b as int),
                            ),
                            b < member_list@[0].end <= s.len(),
                            punct_names_chain(
                                s,
                                b + name_run(s, b as int),
                                p as int,
                                member_list@.subrange(1, member_list@.len() as int),
                                '|',
                            ),
                        ensures
                            pos <= b <= p <= s.len(),
                            p3 <= p,
                            member_list@.len() > 0,
                            spans_ok(member_list@, pos as int, p as int),
                            member_list@[0].start == b && member_list@[0].end == b + name_run(
                                s,
                                b as int,
                            ),
                            member_list@[0].value@ == s.subrange(
                                b as int,
                                b + name_run(s, b as int),
                            ),
                            b < member_list@[0].end <= s.len(),
                            punct_names_are(
                                s,
                                b + name_run(s, b as int),
                                member_list@.subrange(1, member_list@.len() as int),
                                '|',
                            ),
                            p as int == punct_names_end(s, b + name_run(s, b as int), '|'),
                        decreases s.len() - p,
                    {
                        let d = ignore_token0(input, p);
                        let e = match expect_char(input, d, '|') {
                            Ok((e, _)) => e,
                            Err(_) => {
                                proof {
                                    lemma_punct_names_complete(
                                        s,
                                        b + name_run(s, b as int),
                                        p as int,
                                        member_list@.subrange(1, member_list@.len() as int),
                                        '|',
                                    );
                                }
                                break ;
                            },
                        };
                        let f = ignore_token0(input, e);
                        match name(input, f) {
                            Ok((g, nm2)) => {
                                proof {
                                    lemma_punct_names_snoc(
                                        s,
                                        b + name_run(s, b as int),
                                        p as int,
                                        member_list@.subrange(1, member_list@.len() as int),
                                        Positioned { start: f, end: g, value: nm2 },
                                        '|',
                                    );
                                    assert(member_list@.push(
                                        Positioned { start: f, end: g, value: nm2 },
                                    ).subrange(1, member_list@.len() as int + 1)
                                        =~= member_list@.subrange(
                                        1,
                                        member_list@.len() as int,
                                    ).push(Positioned { start: f, end: g, value: nm2 }));
                                }
                                member_list.push(Positioned { start: f, end: g, value: nm2 });
                                p = g;
                            },
                            Err(_) => {
                                proof {
                                    lemma_punct_names_complete(
                                        s,
                                        b + name_run(s, b as int),
                                        p as int,
                                        member_list@.subrange(1, member_list@.len() as int),
                                        '|',
                                    );
                                }
                                break ;
                            },
                        }
                    }
                },
                Err(_) => {},
            }
            np = p;
        },
        Err(_) => {
            if is_extend && dl.len() == 0 {
                return Err(ParsingError { offset: p3, kind: ErrorKind::Structure });
            }
            np = p3;
        },
    }
    Ok((
        np,
        Positioned {
            start: pos,
            end: np,
            value: UnionType {
                is_extend,
                description: desc,
                name: pname,
                member_list,
                directive_list: dl,
            },
        },
    ))
}

/// One enum member: optional description, name, directives.
pub(crate) fn enum_member(input: &str, pos: usize) -> (r: Result<
    (usize, Positioned<EnumMember>),
    ParsingError,
>)
    requires
        pos <= input@.len(),
    ensures
        r is Ok <==> enum_member_end(input@, pos as int) >= 0,
        r matches Ok((np, pm)) ==> np == enum_member_end(input@, pos as int) && enum_member_is(
            input@,
            pm,
        ),
        r matches Ok((np, pm)) ==> pm.start == pos && pm.end == np && pos < np <= input@.len()
            && enum_member_wf(pm.value, pos as int, np as int),
        r matches Ok((np, pm)) ==> pm.value.name.value@ == input@.subrange(
            pm.value.name.start as int,
            pm.value.name.end as int,
        ),
        r matches Err(e) ==> e.offset <= input@.len(),
{
    let (p0, desc) = description(input, pos, false);
    let (p1, pname) = match name(input, p0) {
        Ok((np, nm)) => (np, Positioned { start: p0, end: np, value: nm }),
        Err(e) => {
            return Err(e);
        },
    };
    let (np, dl) = match directive_list(input, p1, false) {
        Ok(x) => x,
        Err(e) => {
            return Err(e);
        },
    };
    Ok((
        np,
        Positioned {
            start: pos,
            end: np,
            value: EnumMember { description: desc, name: pname, directive_list: dl },
        },
    ))
}

/// An enum declaration: an optional braced member list with at least one
/// member; an absent body on an extension with no directives fails.
pub(crate) fn enum_type(input: &str, pos: usize) -> (r: Result<
    (usize, Positioned<EnumType>),
    ParsingError,
>)
    requires
        pos <= input@.len(),
    ensures
        r is Ok <==> enum_type_end(input@, pos as int) >= 0,
        r matches Ok((np, pt)) ==> np == enum_type_end(input@, pos as int) && enum_is(input@, pt),
        r matches Ok((np, pt)) ==> keyword_name_at(
            input@,
            declaration_keyword_pos(input@, pos as int),
            "enum"@,
        ) && pt.value.is_extend == extend_at(input@, pos as int),
        r matches Ok((np, pt)) ==> pt.start == pos && pt.end == np && pos < np <= input@.len()
            && enum_type_wf(pt.value, pos as int, np as int),
        r matches Ok((np, pt)) ==> (pt.value.is_extend ==> pt.value.directive_list@.len() > 0
            || pt.value.member_list@.len() > 0),
        r matches Ok((np, pt)) ==> pt.value.name.value@ == input@.subrange(
            pt.value.name.start as int,
            pt.value.name.end as int,
        ),
        r matches Err(e) ==> e.offset <= input@.len(),
{
    let ghost s = input@;
    let (p0, is_extend) = extend(input, pos);
    let (p1, desc) = description(input, p0, is_extend);
    let (p2, pname) = match definition_type(input, p1, "enum") {
        Ok(x) => x,
        Err(e) => {
            return Err(e);
        },
    };
    let (p3, dl) = match directive_list(input, p2, false) {
        Ok(x) => x,
        Err(e) => {
            return Err(e);
        },
    };
    let mut body: Option<(usize, Vec<Positioned<EnumMember>>)> = None;
    let a = ignore_token0(input, p3);
    match expect_char(input, a, '{') {
        Ok((b, _)) => {
            let d = ignore_token0(input, b);
            let mut members: Vec<Positioned<EnumMember>> = Vec::new();
            match enum_member(input, d) {
                Ok((p4, m)) => {
                    proof {
                        lemma_spaced_snoc(
                            s,
                            b as int,
                            b as int,
                            members@,
                            m,
                            |s2: Seq<char>, pp: int| enum_member_end(s2, pp),
                            |s2: Seq<char>, x: Positioned<EnumMember>| enum_member_is(s2, x),
                        );
                        assert(members@.push(m) =~= seq![m]);
                    }
                    members.push(m);
                    let mut p = p4;
                    loop
                        invariant
                            pos < b <= p <= s.len(),
                            p3 < p,
                            s == input@,
                            enum_members_wf(members@, pos as int, p as int),
                            members@.len() > 0,
                            spaced_chain(
                                s,
                                b as int,
                                p as int,
                                members@,
                                |s2: Seq<char>, pp: int| enum_member_end(s2, pp),
                                |s2: Seq<char>, x: Positioned<EnumMember>| enum_member_is(s2, x),
                            ),
                        ensures
                            pos < b <= p <= s.len(),
                            p3 < p,
                            enum_members_wf(members@, pos as int, p as int),
                            members@.len() > 0,
                            spaced_are(
                                s,
                                b as int,
                                members@,
                                |s2: Seq<char>, pp: int| enum_member_end(s2, pp),
                                |s2: Seq<char>, x: Positioned<EnumMember>| enum_member_is(s2, x),
                            ),
                            p as int == spaced_list_end(
                                s,
                                b as int,
                                |s2: Seq<char>, pp: int| enum_member_end(s2, pp),
                            ),
                        decreases s.len() - p,
                    {
                        let e = ignore_token0(input, p);
                        match enum_member(input, e) {
                            Ok((p5, m2)) => {
                                proof {
                                    lemma_spaced_snoc(
                                        s,
                                        b as int,
                                        p as int,
                                        members@,
                                        m2,
                                        |s2: Seq<char>, pp: int| enum_member_end(s2, pp),
                                        |s2: Seq<char>, x: Positioned<EnumMember>| enum_member_is(
                                            s2,
                                            x,
                                        ),
                                    );
                                }
                                members.push(m2);
                                p = p5;
                            },
                            Err(_) => {
                                proof {
                                    lemma_spaced_complete(
                                        s,
                                        b as int,
                                        p as int,
                                        members@,
                                        |s2: Seq<char>, pp: int| enum_member_end(s2, pp),
                                        |s2: Seq<char>, x: Positioned<EnumMember>| enum_member_is(
                                            s2,
                                            x,
                                        ),
                                    );
                                }
                                break ;
                            },
                        }
                    }
                    let f = ignore_token0(input, p);
                    match expect_char(input, f, '}') {
                        Ok((g, _)) => {
                            body = Some((g, members));
                        },
                        Err(_) => {},
                    }
                },
                Err(_) => {},
            }
        },
        Err(_) => {},
    }
    let np: usize;
    let member_list: Vec<Positioned<EnumMember>>;
    match body {
        Some((q, ms)) => {
            np = q;
            member_list = ms;
        },
        None => {
            if is_extend && dl.len() == 0 {
                return Err(ParsingError { offset: p3, kind: ErrorKind::Structure });
            }
            np = p3;
            member_list = Vec::new();
        },
    }
    Ok((
        np,
        Positioned {
            start: pos,
            end: np,
            value: EnumType {
                is_extend,
                description: desc,
                name: pname,
                member_list,
                directive_list: dl,
            },
        },
    ))
}

/// One `operationType: Name` entry of a schema body.
fn operation_field(input: &str, pos: usize) -> (r: Result<(usize, OperationField), ParsingError>)
    requires
        pos <= input@.len(),
    ensures
        r is Ok <==> operation_field_end(input@, pos as int) >= 0,
        r matches Ok((np, f)) ==> np == operation_field_end(input@, pos as int)
            && operation_field_is(input@, pos as int, f),
        r matches Ok((np, f)) ==> pos < np <= input@.len() && span_ok(f.name, pos as int, np as int),
        r matches Err(e) ==> e.offset <= input@.len(),
{
    proof {
        reveal_strlit("query");
        reveal_strlit("mutation");
        reveal_strlit("subscription");
    }
    let (p1, opty) = match operation_type(input, pos) {
        Ok(x) => x,
        Err(e) => {
            return Err(e);
        },
    };
    let p2 = ignore_token0(input, p1);
    let (p3, _) = match expect_char(input, p2, ':') {
        Ok(x) => x,
        Err(e) => {
            return Err(e);
        },
    };
    let p4 = ignore_token0(input, p3);
    match name(input, p4) {
        Ok((np, nm)) => Ok(
            (np, OperationField { ty: opty, name: Positioned { start: p4, end: np, value: nm } }),
        ),
        Err(e) => Err(e),
    }
}

/// A schema declaration: the keyword needs a trailing separator, directives
/// may follow, and the optional body maps operation types to type names.
/// An extension that attaches neither directives nor a body fails.
pub(crate) fn schema_definition(input: &str, pos: usize) -> (r: Result<
    (usize, Positioned<SchemaDefinition>),
    ParsingError,
>)
    requires
        pos <= input@.len(),
    ensures
        r is Ok <==> schema_definition_end(input@, pos as int) >= 0,
        r matches Ok((np, pd)) ==> np == schema_definition_end(input@, pos as int) && schema_is(
            input@,
            pd,
        ),
        r matches Ok((np, pd)) ==> prefix_at(
            input@,
            declaration_keyword_pos(input@, pos as int),
            "schema"@,
        ) && pd.value.is_extend == extend_at(input@, pos as int),
        r matches Ok((np, pd)) ==> pd.start == pos && pd.end == np && pos < np <= input@.len()
            && schema_wf(pd.value, pos as int, np as int),
        r matches Err(e) ==> e.offset <= input@.len(),
{
    let ghost s = input@;
    let (p0, is_extend) = extend(input, pos);
    let (p1, desc) = description(input, p0, is_extend);
    let (p2, _) = match tag(input, p1, "schema") {
        Ok(x) => x,
        Err(e) => {
            return Err(e);
        },
    };
    let (p3, _) = match ignore_token1(input, p2) {
        Ok(x) => x,
        Err(e) => {
            return Err(e);
        },
    };
    let (p4, dl) = match directive_list(input, p3, false) {
        Ok(x) => x,
        Err(e) => {
            return Err(e);
        },
    };
    let mut body: Option<(usize, Vec<OperationField>)> = None;
    match expect_char(input, p4, '{') {
        Ok((b0, _)) => {
            let b = ignore_token0(input, b0);
            let mut p = b;
            let mut fields: Vec<OperationField> = Vec::new();
            match operation_field(input, b) {
                Ok((p5, f)) => {
                    proof {
                        assert(fields@.push(f).subrange(1, 1) =~= Seq::<OperationField>::empty());
                    }
                    fields.push(f);
                    p = p5;
                    loop
                        invariant
                            pos < b <= p <= s.len(),
                            p4 < p,
                            s == input@,
                            opfields_wf(fields@, pos as int, p as int),
                            fields@.len() > 0,
                            operation_field_is(s, b as int, fields@[0]),
                            b < operation_field_end(s, b as int) <= s.len(),
                            sep1_chain(
                                s,
                                operation_field_end(s, b as int),
                                p as int,
                                fields@.subrange(1, fields@.len() as int),
                                |s2: Seq<char>, pp: int| operation_field_end(s2, pp),
                                |s2: Seq<char>, pp: int, x: OperationField| operation_field_is(
                                    s2,
                                    pp,
                                    x,
                                ),
                            ),
                        ensures
                            pos < b <= p <= s.len(),
                            p4 < p,
                            opfields_wf(fields@, pos as int, p as int),
                            fields@.len() > 0,
                            operation_fields_are(s, b as int, fields@),
                            p as int == sep1_list_end(
                                s,
                                b as int,
                                |s2: Seq<char>, pp: int| operation_field_end(s2, pp),
                            ),
                        decreases s.len() - p,
                    {
                        let q = match ignore_token1(input, p) {
                            Ok((q, _)) => q,
                            Err(_) => {
                                proof {
                                    lemma_sep1_complete(
                                        s,
                                        b as int,
                                        p as int,
                                        fields@,
                                        |s2: Seq<char>, pp: int| operation_field_end(s2, pp),
                                        |s2: Seq<char>, pp: int, x: OperationField|
                                            operation_field_is(s2, pp, x),
                                    );
                                }
                                break ;
                            },
                        };
                        match operation_field(input, q) {
                            Ok((p6, f2)) => {
                                proof {
                                    lemma_sep1_snoc(
                                        s,
                                        operation_field_end(s, b as int),
                                        p as int,
                                        fields@.subrange(1, fields@.len() as int),
                                        f2,
                                        |s2: Seq<char>, pp: int| operation_field_end(s2, pp),
                                        |s2: Seq<char>, pp: int, x: OperationField|
                                            operation_field_is(s2, pp, x),
                                    );
                                    assert(fields@.push(f2).subrange(1, fields@.len() as int + 1)
                                        =~= fields@.subrange(1, fields@.len() as int).push(f2));
                                }
                                fields.push(f2);
                                p = p6;
                            },
                            Err(_) => {
                                proof {
                                    lemma_sep1_complete(
                                        s,
                                        b as int,
                                        p as int,
                                        fields@,
                                        |s2: Seq<char>, pp: int| operation_field_end(s2, pp),
                                        |s2: Seq<char>, pp: int, x: OperationField|
                                            operation_field_is(s2, pp, x),
                                    );
                                }
                                break ;
                            },
                        }
                    }
                },
                Err(_) => {
                    assert(p as int == sep1_list_end(
                        s,
                        b as int,
                        |s2: Seq<char>, pp: int| operation_field_end(s2, pp),
                    ));
                    assert(operation_fields_are(s, b as int, fields@));
                },
            }
            let c = ignore_token0(input, p);
            match expect_char(input, c, '}') {
                Ok((d, _)) => {
                    body = Some((d, fields));
                },
                Err(_) => {},
            }
        },
        Err(_) => {},
    }
    let np: usize;
    let field_list: Vec<OperationField>;
    match body {
        Some((q, fs)) => {
            np = q;
            field_list = fs;
        },
        None => {
            if is_extend && dl.len() == 0 {
                return Err(ParsingError { offset: p4, kind: ErrorKind::Structure });
            }
            np = p4;
            field_list = Vec::new();
        },
    }
    Ok((
        np,
        Positioned {
            start: pos,
            end: np,
            value: SchemaDefinition { is_extend, description: desc, directive_list: dl, field_list },
        },
    ))
}

/// A directive definition: `directive @name`, optional arguments, `on`,
/// then a `|`-separated location list with an optional leading `|`.
pub(crate) fn directive_definition(input: &str, pos: usize) -> (r: Result<
    (usize, Positioned<DirectiveDefinition>),
    ParsingError,
>)
    requires
        pos <= input@.len(),
    ensures
        r is Ok <==> directive_definition_end(input@, pos as int) >= 0,
        r matches Ok((np, pd)) ==> np == directive_definition_end(input@, pos as int)
            && directive_definition_is(input@, pd),
        r matches Ok((np, pd)) ==> prefix_at(
            input@,
            description_end(input@, pos as int),
            "directive"@,
        ),
        r matches Ok((np, pd)) ==> pd.start == pos && pd.end == np && pos < np <= input@.len()
            && directive_def_wf(pd.value, pos as int, np as int),
        r matches Ok((np, pd)) ==> pd.value.name.value@ == input@.subrange(
            pd.value.name.start as int,
            pd.value.name.end as int,
        ),
        r matches Err(e) ==> e.offset <= input@.len(),
{
    let ghost s = input@;
    let (p0, desc) = description(input, pos, false);
    let (p1, _) = match tag(input, p0, "directive") {
        Ok(x) => x,
        Err(e) => {
            return Err(e);
        },
    };
    let p2 = ignore_token0(input, p1);
    let (p3, pname) = match directive_name(input, p2) {
        Ok(x) => x,
        Err(e) => {
            return Err(e);
        },
    };
    let p4 = ignore_token0(input, p3);
    let (p5, al) = field_argument_list(input, p4);
    let (p6, _) = match tag(input, p5, "on") {
        Ok(x) => x,
        Err(e) => {
            return Err(e);
        },
    };
    // an optional leading `|` after a separator, else bare trivia
    let mut c: usize = 0;
    let mut leading = false;
    match ignore_token1(input, p6) {
        Ok((a, _)) => match expect_char(input, a, '|') {
            Ok((b, _)) => {
                c = ignore_token0(input, b);
                leading = true;
            },
            Err(_) => {},
        },
        Err(_) => {},
    }
    if !leading {
        c = ignore_token0(input, p6);
    }
    let mut locations: Vec<Positioned<DirectiveLocation>> = Vec::new();
    let mut p = c;
    let d0 = ignore_token0(input, c);
    match directive_location(input, d0) {
        Ok((e0, loc)) => {
            proof {
                assert(locations@.push(
                    Positioned { start: d0, end: e0, value: loc },
                ).subrange(1, 1) =~= Seq::<Positioned<DirectiveLocation>>::empty());
            }
            locations.push(Positioned { start: d0, end: e0, value: loc });
            let ghost fe = e0 + ws_run(s, e0 as int);
            p = ignore_token0(input, e0);
            loop
                invariant
                    pos <= c <= p <= s.len(),
                    p6 < p,
                    s == input@,
                    spans_ok(locations@, pos as int, p as int),
                    locations@.len() > 0,
                    locations@[0].start == c + ws_run(s, c as int),
                    location_is(s, locations@[0]),
                    c < fe <= s.len(),
                    fe == locations@[0].end + ws_run(s, locations@[0].end as int),
                    locations_chain(s, fe, p as int, locations@.subrange(1, locations@.len() as int)),
                ensures
                    pos <= c <= p <= s.len(),
                    p6 < p,
                    spans_ok(locations@, pos as int, p as int),
                    locations@.len() > 0,
                    locations@[0].start == c + ws_run(s, c as int),
                    location_is(s, locations@[0]),
                    c < fe <= s.len(),
                    fe == locations@[0].end + ws_run(s, locations@[0].end as int),
                    locations_are(s, fe, locations@.subrange(1, locations@.len() as int)),
                    p as int == locations_end(s, fe),
                decreases s.len() - p,
            {
                let f = match expect_char(input, p, '|') {
                    Ok((f, _)) => f,
                    Err(_) => {
                        proof {
                            lemma_locations_complete(
                                s,
                                fe,
                                p as int,
                                locations@.subrange(1, locations@.len() as int),
                            );
                        }
                        break ;
                    },
                };
                let g = ignore_token0(input, f);
                match directive_location(input, g) {
                    Ok((h, loc2)) => {
                        let pn = ignore_token0(input, h);
                        proof {
                            assert(location_item_end(s, g as int) == pn as int);
                            lemma_locations_snoc(
                                s,
                                fe,
                                p as int,
                                locations@.subrange(1, locations@.len() as int),
                                Positioned { start: g, end: h, value: loc2 },
                            );
                            assert(locations@.push(
                                Positioned { start: g, end: h, value: loc2 },
                            ).subrange(1, locations@.len() as int + 1) =~= locations@.subrange(
                                1,
                                locations@.len() as int,
                            ).push(Positioned { start: g, end: h, value: loc2 }));
                        }
                        locations.push(Positioned { start: g, end: h, value: loc2 });
                        p = pn;
                    },
                    Err(_) => {
                        proof {
                            lemma_locations_complete(
                                s,
                                fe,
                                p as int,
                                locations@.subrange(1, locations@.len() as int),
                            );
                        }
                        break ;
                    },
                }
            }
        },
        Err(_) => {},
    }
    Ok((
        p,
        Positioned {
            start: pos,
            end: p,
            value: DirectiveDefinition {
                description: desc,
                name: pname,
                argument_list: al,
                location_list: locations,
            },
        },
    ))
}

/// A type declaration of any kind, the alternatives tried in declared
/// order; the failure of the last alternative surfaces.
pub(crate) fn type_definition(input: &str, pos: usize) -> (r: Result<
    (usize, TypeDefinition),
    ParsingError,
>)
    requires
        pos <= input@.len(),
    ensures
        r is Ok <==> type_definition_end(input@, pos as int) >= 0,
        r matches Ok((np, td)) ==> np == type_definition_end(input@, pos as int)
            && type_definition_is(input@, pos as int, td),
        r matches Ok((np, td)) ==> pos < np <= input@.len() && type_def_wf(td, pos as int, np as int),
        r matches Err(e) ==> e.offset <= input@.len(),
{
    match scalar_type(input, pos) {
        Ok((np, pt)) => {
            return Ok((np, TypeDefinition::Scalar(pt)));
        },
        Err(_) => {},
    }
    match object_type(input, pos) {
        Ok((np, pt)) => {
            return Ok((np, TypeDefinition::Object(pt)));
        },
        Err(_) => {},
    }
    match interface_type(input, pos) {
        Ok((np, pt)) => {
            return Ok((np, TypeDefinition::Interface(pt)));
        },
        Err(_) => {},
    }
    match union_type(input, pos) {
        Ok((np, pt)) => {
            return Ok((np, TypeDefinition::Union(pt)));
        },
        Err(_) => {},
    }
    match enum_type(input, pos) {
        Ok((np, pt)) => {
            return Ok((np, TypeDefinition::Enum(pt)));
        },
        Err(_) => {},
    }
    match input_object_type(input, pos) {
        Ok((np, pt)) => Ok((np, TypeDefinition::InputObject(pt))),
        Err(e) => Err(e),
    }
}

} // verus!
