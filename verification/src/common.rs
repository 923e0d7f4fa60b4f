//! Productions shared by the type-system and executable grammars: type
//! references, the `extend` prefix, keyword-plus-name openers, directive
//! attachments and argument lists.

use vstd::prelude::*;
use crate::ast::Directive;
use crate::ast::FieldArgument;
use crate::ast::OperationType;
use crate::ast::Positioned;
use crate::ast::Type;
use crate::ast::chain;
use crate::ast::directive_wf;
use crate::ast::lemma_chain_snoc;
use crate::ast::directives_wf;
use crate::ast::farg_wf;
use crate::ast::fargs_wf;
use crate::ast::span_ok;
use crate::ast::type_wf;
use crate::error::ErrorKind;
use crate::error::ParsingError;
use crate::lex::desc_is;
use crate::lex::description;
use crate::lex::description_end;
use crate::lex::expect_char;
use crate::lex::ignore_token0;
use crate::lex::ignore_token1;
use crate::lex::is_name_start;
use crate::lex::is_ws;
use crate::lex::lemma_run_bounds;
use crate::lex::name_run;
use crate::lex::trivia_run;
use crate::lex::ws_run;
use crate::lex::name;
use crate::lex::prefix_at;
use crate::lex::tag;
use crate::value::value;
use crate::value::value_end;

verus! {

/// The offset right after the named or list type at `i`, or -1 when none
/// stands there.
pub open spec fn ty_base_end(s: Seq<char>, i: int) -> int
    decreases s.len() - i, 0int,
{
    if 0 <= i < s.len() && is_name_start(s[i]) {
        i + name_run(s, i)
    } else if 0 <= i < s.len() && s[i] == '[' {
        let j = i + 1 + ws_run(s, i + 1);
        if i < j <= s.len() {
            let k = ty_end(s, j);
            if k >= 0 {
                let m = k + ws_run(s, k);
                if 0 <= m < s.len() && s[m] == ']' {
                    m + 1
                } else {
                    -1
                }
            } else {
                -1
            }
        } else {
            -1
        }
    } else {
        -1
    }
}

/// The offset right after the type reference at `i`, or -1 when none stands
/// there.
pub open spec fn ty_end(s: Seq<char>, i: int) -> int
    decreases s.len() - i, 1int,
{
    let b = ty_base_end(s, i);
    if b >= 0 {
        let m = b + ws_run(s, b);
        if 0 <= m < s.len() && s[m] == '!' {
            m + 1
        } else {
            b
        }
    } else {
        -1
    }
}

/// `t` is the named or list type the text at `i` denotes.
pub open spec fn ty_base_is(s: Seq<char>, i: int, t: Type) -> bool
    decreases t, 0int,
{
    if 0 <= i < s.len() && is_name_start(s[i]) {
        t matches Type::Named(nm) && nm@ == s.subrange(i, i + name_run(s, i))
    } else if 0 <= i < s.len() && s[i] == '[' {
        t matches Type::List(inner) && ty_is(s, i + 1 + ws_run(s, i + 1), *inner)
    } else {
        false
    }
}

/// `t` is the type reference the text at `i` denotes, non-null exactly when
/// a `!` follows the base type.
pub open spec fn ty_is(s: Seq<char>, i: int, t: Type) -> bool
    decreases t, 1int,
{
    let b = ty_base_end(s, i);
    let m = b + ws_run(s, b);
    if b >= 0 && 0 <= m < s.len() && s[m] == '!' {
        t matches Type::NonNull(inner) && ty_base_is(s, i, *inner)
    } else {
        ty_base_is(s, i, t)
    }
}

/// A named or list type; the non-null wrapper is handled by [`ty`].
fn ty_base(input: &str, pos: usize) -> (r: Result<(usize, Type), ParsingError>)
    requires
        pos <= input@.len(),
    ensures
        r is Ok <==> ty_base_end(input@, pos as int) >= 0,
        r matches Ok((np, t)) ==> np == ty_base_end(input@, pos as int) && ty_base_is(
            input@,
            pos as int,
            t,
        ),
        r matches Ok((np, t)) ==> pos < np <= input@.len() && type_wf(t) && !(t is NonNull),
        r matches Ok((np, t)) ==> (t matches Type::Named(nm) ==> nm@ == input@.subrange(
            pos as int,
            np as int,
        )),
        r matches Err(e) ==> e.offset <= input@.len(),
    decreases input@.len() - pos, 0int,
{
    match name(input, pos) {
        Ok((np, nm)) => {
            return Ok((np, Type::Named(nm)));
        },
        Err(_) => {},
    }
    let (p1, _) = match expect_char(input, pos, '[') {
        Ok(x) => x,
        Err(_) => {
            return Err(ParsingError { offset: pos, kind: ErrorKind::Name });
        },
    };
    let p2 = ignore_token0(input, p1);
    let (p3, inner) = match ty(input, p2) {
        Ok(x) => x,
        Err(e) => {
            return Err(e);
        },
    };
    let p4 = ignore_token0(input, p3);
    match expect_char(input, p4, ']') {
        Ok((p5, _)) => Ok((p5, Type::List(Box::new(inner)))),
        Err(e) => Err(e),
    }
}

/// A type reference: a named or list type, non-null when a trailing `!`
/// follows.  The `!` applies once to a named-or-list type, so a non-null
/// type never wraps another non-null type.
pub(crate) fn ty(input: &str, pos: usize) -> (r: Result<(usize, Type), ParsingError>)
    requires
        pos <= input@.len(),
    ensures
        r is Ok <==> ty_end(input@, pos as int) >= 0,
        r matches Ok((np, t)) ==> np == ty_end(input@, pos as int) && ty_is(input@, pos as int, t),
        r matches Ok((np, t)) ==> pos < np <= input@.len() && type_wf(t),
        r matches Ok((np, t)) ==> (t matches Type::Named(nm) ==> nm@ == input@.subrange(
            pos as int,
            np as int,
        )),
        r matches Err(e) ==> e.offset <= input@.len(),
    decreases input@.len() - pos, 1int,
{
    let (p1, base) = match ty_base(input, pos) {
        Ok(x) => x,
        Err(e) => {
            return Err(e);
        },
    };
    let p2 = ignore_token0(input, p1);
    match expect_char(input, p2, '!') {
        Ok((p3, _)) => Ok((p3, Type::NonNull(Box::new(base)))),
        Err(_) => Ok((p1, base)),
    }
}

/// The `extend` keyword stands at `i`, followed by a required separator.
pub open spec fn extend_at(s: Seq<char>, i: int) -> bool {
    prefix_at(s, i, "extend"@) && i + "extend"@.len() < s.len() && (is_ws(s[i + "extend"@.len()])
        || s[i + "extend"@.len()] == '#')
}

/// Optionally consumes `extend` and its mandatory trailing separator.
pub(crate) fn extend(input: &str, pos: usize) -> (r: (usize, bool))
    requires
        pos <= input@.len(),
    ensures
        r.1 == extend_at(input@, pos as int),
        r.1 ==> pos < r.0 <= input@.len() && r.0 == pos + "extend"@.len() + trivia_run(
            input@,
            pos + "extend"@.len(),
        ),
        !r.1 ==> r.0 == pos,
{
    proof {
        reveal_strlit("extend");
    }
    match tag(input, pos, "extend") {
        Ok((p, _)) => match ignore_token1(input, p) {
            Ok((q, _)) => (q, true),
            Err(_) => (pos, false),
        },
        Err(_) => (pos, false),
    }
}

/// A keyword, a required separator and a name stand at `i`.
pub open spec fn keyword_name_at(s: Seq<char>, i: int, kw: Seq<char>) -> bool {
    let k = i + kw.len();
    &&& prefix_at(s, i, kw)
    &&& k < s.len() && (is_ws(s[k]) || s[k] == '#')
    &&& k + trivia_run(s, k) < s.len() && is_name_start(s[k + trivia_run(s, k)])
}

/// The offset right after such an opener's name.
pub open spec fn keyword_name_end(s: Seq<char>, i: int, kw: Seq<char>) -> int {
    let n0 = i + kw.len() + trivia_run(s, i + kw.len());
    n0 + name_run(s, n0)
}

/// A directive attachment starts at `i`: `@`, then a name.
pub open spec fn directive_start_at(s: Seq<char>, i: int) -> bool {
    0 <= i < s.len() && s[i] == '@' && i + 1 + ws_run(s, i + 1) < s.len() && is_name_start(
        s[i + 1 + ws_run(s, i + 1)],
    )
}

/// The offset right after the directive attachment at `i`, or -1 when none
/// stands there.
pub open spec fn directive_end(s: Seq<char>, i: int) -> int
    decreases s.len() - i, 0int,
{
    if directive_start_at(s, i) {
        let n0 = i + 1 + ws_run(s, i + 1);
        let n1 = n0 + name_run(s, n0);
        let a0 = n1 + ws_run(s, n1);
        if i < a0 <= s.len() {
            field_argument_list_end(s, a0)
        } else {
            -1
        }
    } else {
        -1
    }
}

/// The offset right after the directive attachments starting at `i`, each
/// past skippable trivia; the offset itself when none stands there.
pub open spec fn directive_list_end(s: Seq<char>, i: int) -> int
    decreases s.len() - i, 1int,
{
    let q = i + ws_run(s, i);
    if i <= q && directive_start_at(s, q) {
        let e = directive_end(s, q);
        if i < e <= s.len() {
            directive_list_end(s, e)
        } else {
            i
        }
    } else {
        i
    }
}

/// The offset right after the argument at `i`, or -1 when none stands
/// there: optional description, name, `:`, type, optional `= value`,
/// directives.
pub open spec fn field_argument_end(s: Seq<char>, i: int) -> int
    decreases s.len() - i, 2int,
{
    if 0 <= i <= s.len() {
        let p0 = description_end(s, i);
        if i <= p0 && p0 < s.len() && is_name_start(s[p0]) {
            let p1 = p0 + name_run(s, p0);
            let p2 = p1 + ws_run(s, p1);
            if 0 <= p2 < s.len() && s[p2] == ':' {
                let p4 = p2 + 1 + ws_run(s, p2 + 1);
                if p4 <= s.len() && ty_end(s, p4) >= 0 {
                    let p5 = ty_end(s, p4);
                    let q1 = p5 + ws_run(s, p5);
                    let q3 = q1 + 1 + ws_run(s, q1 + 1);
                    let p6 = if 0 <= q1 < s.len() && s[q1] == '=' && value_end(s, q3) >= 0 {
                        value_end(s, q3)
                    } else {
                        p5
                    };
                    if i < p6 <= s.len() {
                        directive_list_end(s, p6)
                    } else {
                        -1
                    }
                } else {
                    -1
                }
            } else {
                -1
            }
        } else {
            -1
        }
    } else {
        -1
    }
}

/// The offset right after the argument sequence starting at `i`, arguments
/// separated by required trivia; the offset itself when no argument stands
/// there.
pub open spec fn args_end(s: Seq<char>, i: int) -> int
    decreases s.len() - i, 4int,
{
    let e = field_argument_end(s, i);
    if e >= 0 {
        if i < e <= s.len() {
            let q = e + trivia_run(s, e);
            if e < s.len() && (is_ws(s[e]) || s[e] == '#') && e < q <= s.len()
                && field_argument_end(s, q) >= 0 {
                args_end(s, q)
            } else {
                e
            }
        } else {
            -1
        }
    } else {
        i
    }
}

/// The offset right after the optional parenthesized argument list at `i`;
/// the offset itself when no parenthesis stands there or the bracketed text
/// does not parse.
pub open spec fn field_argument_list_end(s: Seq<char>, i: int) -> int
    decreases s.len() - i, 5int,
{
    if 0 <= i < s.len() && s[i] == '(' {
        let p = i + 1 + ws_run(s, i + 1);
        if i < p <= s.len() {
            let q = args_end(s, p);
            if q >= 0 {
                let c = q + ws_run(s, q);
                if 0 <= c < s.len() && s[c] == ')' {
                    c + 1 + ws_run(s, c + 1)
                } else {
                    i
                }
            } else {
                i
            }
        } else {
            i
        }
    } else {
        i
    }
}

/// `pd` is the directive attachment the text at its start denotes.
pub open spec fn directive_is(s: Seq<char>, pd: Positioned<Directive>) -> bool
    decreases pd,
{
    let i = pd.start as int;
    let n0 = i + 1 + ws_run(s, i + 1);
    let n1 = n0 + name_run(s, n0);
    &&& directive_start_at(s, i)
    &&& pd.value.name.start == n0
    &&& pd.value.name.end == n1
    &&& pd.value.name.value@ == s.subrange(n0, n1)
    &&& fargs_are(s, n1 + ws_run(s, n1), pd.value.argument_list@)
    &&& pd.end == directive_end(s, i)
    &&& i < pd.end <= s.len()
}

/// The directives are exactly the attachments standing at `i`, each past
/// skippable trivia.
pub open spec fn directives_are(s: Seq<char>, i: int, ds: Seq<Positioned<Directive>>) -> bool
    decreases ds,
{
    if directive_start_at(s, i + ws_run(s, i)) {
        &&& ds.len() > 0
        &&& ds[0].start == i + ws_run(s, i)
        &&& directive_is(s, ds[0])
        &&& directives_are(s, directive_end(s, i + ws_run(s, i)), ds.subrange(1, ds.len() as int))
    } else {
        ds.len() == 0
    }
}

/// `pa` is the argument the text at its start denotes.
pub open spec fn farg_is(s: Seq<char>, pa: Positioned<FieldArgument>) -> bool
    decreases pa,
{
    let i = pa.start as int;
    let p0 = description_end(s, i);
    let p1 = p0 + name_run(s, p0);
    let p2 = p1 + ws_run(s, p1);
    let p4 = p2 + 1 + ws_run(s, p2 + 1);
    let p5 = ty_end(s, p4);
    let q1 = p5 + ws_run(s, p5);
    let q3 = q1 + 1 + ws_run(s, q1 + 1);
    let has_default = 0 <= q1 < s.len() && s[q1] == '=' && value_end(s, q3) >= 0;
    let p6 = if has_default {
        value_end(s, q3)
    } else {
        p5
    };
    &&& desc_is(s, i, pa.value.description)
    &&& p0 < s.len() && is_name_start(s[p0])
    &&& pa.value.name.start == p0 && pa.value.name.end == p1 && pa.value.name.value@ == s.subrange(
        p0,
        p1,
    )
    &&& 0 <= p2 < s.len() && s[p2] == ':'
    &&& ty_end(s, p4) >= 0 && pa.value.ty.start == p4 && pa.value.ty.end == p5 && ty_is(
        s,
        p4,
        pa.value.ty.value,
    )
    &&& (if has_default {
        pa.value.default_value matches Some(dv) && dv.start == q3 && dv.end == value_end(s, q3)
            && crate::value::value_is(s, q3, dv.value)
    } else {
        pa.value.default_value is None
    })
    &&& directives_are(s, p6, pa.value.directive_list@)
    &&& pa.end == field_argument_end(s, i)
    &&& i < pa.end <= s.len()
}

/// The arguments are exactly the sequence standing at `i`, later ones each
/// after a required separator.
pub open spec fn args_are(s: Seq<char>, i: int, args: Seq<Positioned<FieldArgument>>) -> bool
    decreases args, 0int,
{
    if field_argument_end(s, i) >= 0 {
        &&& args.len() > 0
        &&& args[0].start == i
        &&& farg_is(s, args[0])
        &&& {
            let e = field_argument_end(s, i);
            let q = e + trivia_run(s, e);
            if e < s.len() && (is_ws(s[e]) || s[e] == '#') && e < q <= s.len()
                && field_argument_end(s, q) >= 0 {
                args_are(s, q, args.subrange(1, args.len() as int))
            } else {
                args.len() == 1
            }
        }
    } else {
        args.len() == 0
    }
}

/// The arguments are exactly the parenthesized list standing at `i`, and
/// empty when none parses there.
pub open spec fn fargs_are(s: Seq<char>, i: int, args: Seq<Positioned<FieldArgument>>) -> bool
    decreases args, 1int,
{
    if 0 <= i < s.len() && s[i] == '(' && field_argument_list_end(s, i) > i {
        args_are(s, i + 1 + ws_run(s, i + 1), args)
    } else {
        args.len() == 0
    }
}

/// Another directive attachment follows the trivia at `i`.
pub open spec fn directive_can(s: Seq<char>, i: int) -> bool {
    directive_start_at(s, i + ws_run(s, i))
}

pub open spec fn directive_step(s: Seq<char>, i: int) -> int {
    i + ws_run(s, i)
}

/// The directives parsed from `i` up to `j`, in order.
pub open spec fn directives_chain(s: Seq<char>, i: int, j: int, ds: Seq<Positioned<Directive>>) -> bool {
    chain(
        s,
        i,
        j,
        ds,
        |a: Seq<char>, b: int| directive_can(a, b),
        |a: Seq<char>, b: int| directive_step(a, b),
        |a: Seq<char>, x: Positioned<Directive>| directive_is(a, x),
        |a: Seq<char>, b: int| directive_end(a, b),
    )
}

pub proof fn lemma_directives_snoc(
    s: Seq<char>,
    i: int,
    j: int,
    ds: Seq<Positioned<Directive>>,
    x: Positioned<Directive>,
)
    requires
        directives_chain(s, i, j, ds),
        directive_can(s, j),
        x.start == directive_step(s, j),
        directive_is(s, x),
    ensures
        directives_chain(s, i, directive_end(s, directive_step(s, j)), ds.push(x)),
{
    lemma_chain_snoc(
        s,
        i,
        j,
        ds,
        x,
        |a: Seq<char>, b: int| directive_can(a, b),
        |a: Seq<char>, b: int| directive_step(a, b),
        |a: Seq<char>, x2: Positioned<Directive>| directive_is(a, x2),
        |a: Seq<char>, b: int| directive_end(a, b),
    );
}

/// A finished chain with nothing more to step to is the whole directive
/// list, and ends where the list ends.
pub proof fn lemma_directives_complete(s: Seq<char>, i: int, j: int, ds: Seq<Positioned<Directive>>)
    requires
        directives_chain(s, i, j, ds),
        !directive_can(s, j),
        0 <= i <= s.len(),
    ensures
        directives_are(s, i, ds),
        j == directive_list_end(s, i),
    decreases ds.len(),
{
    lemma_run_bounds(s, i, |c: char| is_ws(c));
    if ds.len() == 0 {
    } else {
        lemma_directives_complete(s, directive_end(s, i + ws_run(s, i)), j, ds.subrange(1, ds.len() as int));
    }
}

/// A later argument follows a required separator at `i`.
pub open spec fn args_can(s: Seq<char>, i: int) -> bool {
    i < s.len() && (is_ws(s[i]) || s[i] == '#') && i < i + trivia_run(s, i) <= s.len()
        && field_argument_end(s, i + trivia_run(s, i)) >= 0
}

pub open spec fn args_step(s: Seq<char>, i: int) -> int {
    i + trivia_run(s, i)
}

/// The arguments parsed from `i` up to `j`, in order, each after a
/// separator.
pub open spec fn args_chain(s: Seq<char>, i: int, j: int, args: Seq<Positioned<FieldArgument>>) -> bool {
    chain(
        s,
        i,
        j,
        args,
        |a: Seq<char>, b: int| args_can(a, b),
        |a: Seq<char>, b: int| args_step(a, b),
        |a: Seq<char>, x: Positioned<FieldArgument>| farg_is(a, x),
        |a: Seq<char>, b: int| field_argument_end(a, b),
    )
}

pub proof fn lemma_args_snoc(
    s: Seq<char>,
    i: int,
    j: int,
    args: Seq<Positioned<FieldArgument>>,
    x: Positioned<FieldArgument>,
)
    requires
        args_chain(s, i, j, args),
        args_can(s, j),
        x.start == args_step(s, j),
        farg_is(s, x),
    ensures
        args_chain(s, i, field_argument_end(s, args_step(s, j)), args.push(x)),
{
    lemma_chain_snoc(
        s,
        i,
        j,
        args,
        x,
        |a: Seq<char>, b: int| args_can(a, b),
        |a: Seq<char>, b: int| args_step(a, b),
        |a: Seq<char>, x2: Positioned<FieldArgument>| farg_is(a, x2),
        |a: Seq<char>, b: int| field_argument_end(a, b),
    );
}

/// A first argument followed by a finished chain is the whole argument
/// sequence, and ends where the sequence ends.
pub proof fn lemma_args_complete(s: Seq<char>, i: int, j: int, args: Seq<Positioned<FieldArgument>>)
    requires
        args.len() > 0,
        args[0].start == i,
        farg_is(s, args[0]),
        args_chain(s, field_argument_end(s, i), j, args.subrange(1, args.len() as int)),
        !args_can(s, j),
    ensures
        args_are(s, i, args),
        j == args_end(s, i),
    decreases args.len(),
{
    let e = field_argument_end(s, i);
    let rest = args.subrange(1, args.len() as int);
    if rest.len() == 0 {
    } else {
        let q = args_step(s, e);
        assert(rest.subrange(1, rest.len() as int) =~= args.subrange(2, args.len() as int));
        lemma_args_complete(s, q, j, rest);
    }
}

/// A declaration opener: the keyword, a required separator, then the
/// declared name with its span.
pub(crate) fn definition_type(input: &str, pos: usize, keyword: &str) -> (r: Result<
    (usize, Positioned<String>),
    ParsingError,
>)
    requires
        pos <= input@.len(),
    ensures
        r is Ok <==> keyword_name_at(input@, pos as int, keyword@),
        r matches Ok((np, pn)) ==> pos < np <= input@.len() && pos <= pn.start && pn.start < pn.end
            && pn.end == np && pn.value@ == input@.subrange(pn.start as int, pn.end as int)
            && pn.start == pos + keyword@.len() + trivia_run(input@, pos + keyword@.len())
            && np == keyword_name_end(input@, pos as int, keyword@),
        r matches Err(e) ==> e.offset <= input@.len(),
{
    let (p1, _) = match tag(input, pos, keyword) {
        Ok(x) => x,
        Err(e) => {
            return Err(e);
        },
    };
    let (p2, _) = match ignore_token1(input, p1) {
        Ok(x) => x,
        Err(e) => {
            return Err(e);
        },
    };
    match name(input, p2) {
        Ok((np, nm)) => Ok((np, Positioned { start: p2, end: np, value: nm })),
        Err(e) => Err(e),
    }
}

/// An operation type keyword: `query`, `mutation` or `subscription`, in
/// that order.
pub(crate) fn operation_type(input: &str, pos: usize) -> (r: Result<
    (usize, OperationType),
    ParsingError,
>)
    requires
        pos <= input@.len(),
    ensures
        r is Ok <==> prefix_at(input@, pos as int, "query"@) || prefix_at(
            input@,
            pos as int,
            "mutation"@,
        ) || prefix_at(input@, pos as int, "subscription"@),
        r matches Ok((np, t)) ==> pos < np <= input@.len() && (prefix_at(
            input@,
            pos as int,
            "query"@,
        ) ==> t == OperationType::Query && np == pos + 5) && (!prefix_at(
            input@,
            pos as int,
            "query"@,
        ) && prefix_at(input@, pos as int, "mutation"@) ==> t == OperationType::Mutation && np
            == pos + 8) && (!prefix_at(input@, pos as int, "query"@) && !prefix_at(
            input@,
            pos as int,
            "mutation"@,
        ) ==> t == OperationType::Subscription && np == pos + 12),
        r matches Err(e) ==> e.offset == pos,
{
    proof {
        reveal_strlit("query");
        reveal_strlit("mutation");
        reveal_strlit("subscription");
    }
    match tag(input, pos, "query") {
        Ok((np, _)) => {
            return Ok((np, OperationType::Query));
        },
        Err(_) => {},
    }
    match tag(input, pos, "mutation") {
        Ok((np, _)) => {
            return Ok((np, OperationType::Mutation));
        },
        Err(_) => {},
    }
    match tag(input, pos, "subscription") {
        Ok((np, _)) => Ok((np, OperationType::Subscription)),
        Err(e) => Err(e),
    }
}

/// `@` followed by the directive's name.
pub(crate) fn directive_name(input: &str, pos: usize) -> (r: Result<
    (usize, Positioned<String>),
    ParsingError,
>)
    requires
        pos <= input@.len(),
    ensures
        r is Ok <==> directive_start_at(input@, pos as int),
        r matches Ok((np, pn)) ==> pos < np <= input@.len() && pos <= pn.start && pn.start < pn.end
            && pn.end == np && pn.value@ == input@.subrange(pn.start as int, pn.end as int)
            && pn.start == pos + 1 + ws_run(input@, pos + 1) && np == pn.start + name_run(
            input@,
            pn.start as int,
        ),
        r matches Err(e) ==> e.offset <= input@.len(),
{
    let (p1, _) = match expect_char(input, pos, '@') {
        Ok(x) => x,
        Err(e) => {
            return Err(e);
        },
    };
    let p2 = ignore_token0(input, p1);
    match name(input, p2) {
        Ok((np, nm)) => Ok((np, Positioned { start: p2, end: np, value: nm })),
        Err(e) => Err(e),
    }
}

/// One argument: optional description, name, `:`, type, optional
/// `= defaultValue`, directives.
pub(crate) fn field_argument(input: &str, pos: usize) -> (r: Result<
    (usize, Positioned<FieldArgument>),
    ParsingError,
>)
    requires
        pos <= input@.len(),
    ensures
        r is Ok <==> field_argument_end(input@, pos as int) >= 0,
        r matches Ok((np, pa)) ==> np == field_argument_end(input@, pos as int) && farg_is(
            input@,
            pa,
        ),
        r matches Ok((np, pa)) ==> pa.start == pos && pa.end == np && pos < np <= input@.len()
            && farg_wf(pa.value, pos as int, np as int),
        r matches Ok((np, pa)) ==> pa.value.name.value@ == input@.subrange(
            pa.value.name.start as int,
            pa.value.name.end as int,
        ),
        r matches Ok((np, pa)) ==> (pa.value.default_value matches Some(dv)
            ==> crate::value::numeric_value_exact(input@, dv.start as int, dv.end as int, dv.value)),
        r matches Err(e) ==> e.offset <= input@.len(),
    decreases input@.len() - pos, 2int,
{
    let (p0, desc) = description(input, pos, false);
    let (p1, pname) = match name(input, p0) {
        Ok((np, nm)) => (np, Positioned { start: p0, end: np, value: nm }),
        Err(e) => {
            return Err(e);
        },
    };
    let p2 = ignore_token0(input, p1);
    let (p3, _) = match expect_char(input, p2, ':') {
        Ok(x) => x,
        Err(e) => {
            return Err(e);
        },
    };
    let p4 = ignore_token0(input, p3);
    let (p5, pty) = match ty(input, p4) {
        Ok((np, t)) => (np, Positioned { start: p4, end: np, value: t }),
        Err(e) => {
            return Err(e);
        },
    };
    let mut p = p5;
    let mut default_value: Option<Positioned<crate::ast::Value>> = None;
    let q1 = ignore_token0(input, p5);
    match expect_char(input, q1, '=') {
        Ok((q2, _)) => {
            let q3 = ignore_token0(input, q2);
            match value(input, q3) {
                Ok((q4, v)) => {
                    default_value = Some(Positioned { start: q3, end: q4, value: v });
                    p = q4;
                },
                Err(_) => {},
            }
        },
        Err(_) => {},
    }
    let (np, dl) = match directive_list(input, p, false) {
        Ok(x) => x,
        Err(e) => {
            return Err(e);
        },
    };
    Ok((
        np,
        Positioned {
            start: pos,
            end: np,
            value: FieldArgument {
                description: desc,
                name: pname,
                ty: pty,
                default_value,
                directive_list: dl,
            },
        },
    ))
}

/// An optional parenthesized argument list; when the parenthesis is absent
/// or the bracketed text does not parse, nothing is consumed and the list
/// is empty.
pub(crate) fn field_argument_list(input: &str, pos: usize) -> (r: (
    usize,
    Vec<Positioned<FieldArgument>>,
))
    requires
        pos <= input@.len(),
    ensures
        r.0 == field_argument_list_end(input@, pos as int),
        fargs_are(input@, pos as int, r.1@),
        pos <= r.0 <= input@.len(),
        fargs_wf(r.1@, pos as int, r.0 as int),
    decreases input@.len() - pos, 3int,
{
    let ghost s = input@;
    let (p1, _) = match expect_char(input, pos, '(') {
        Ok(x) => x,
        Err(_) => {
            return (pos, Vec::new());
        },
    };
    let p0 = ignore_token0(input, p1);
    let mut p = p0;
    let mut args: Vec<Positioned<FieldArgument>> = Vec::new();
    match field_argument(input, p0) {
        Ok((p2, a)) => {
            proof {
                assert(args@.push(a).subrange(1, 1) =~= Seq::<Positioned<FieldArgument>>::empty());
            }
            args.push(a);
            p = p2;
            loop
                invariant
                    pos < p0 <= p <= s.len(),
                    s == input@,
                    fargs_wf(args@, pos as int, p as int),
                    args@.len() > 0,
                    args@[0].start == p0,
                    farg_is(s, args@[0]),
                    args_chain(
                        s,
                        field_argument_end(s, p0 as int),
                        p as int,
                        args@.subrange(1, args@.len() as int),
                    ),
                ensures
                    pos < p0 <= p <= s.len(),
                    fargs_wf(args@, pos as int, p as int),
                    args@.len() > 0,
                    args_are(s, p0 as int, args@),
                    p as int == args_end(s, p0 as int),
                decreases s.len() - p,
            {
                let q = match ignore_token1(input, p) {
                    Ok((q, _)) => q,
                    Err(_) => {
                        proof {
                            lemma_args_complete(s, p0 as int, p as int, args@);
                        }
                        break ;
                    },
                };
                match field_argument(input, q) {
                    Ok((p3, a2)) => {
                        proof {
                            lemma_args_snoc(
                                s,
                                field_argument_end(s, p0 as int),
                                p as int,
                                args@.subrange(1, args@.len() as int),
                                a2,
                            );
                            assert(args@.push(a2).subrange(1, args@.len() as int + 1)
                                =~= args@.subrange(1, args@.len() as int).push(a2));
                        }
                        args.push(a2);
                        p = p3;
                    },
                    Err(_) => {
                        proof {
                            lemma_args_complete(s, p0 as int, p as int, args@);
                        }
                        break ;
                    },
                }
            }
        },
        Err(_) => {
            assert(args_end(s, p0 as int) == p0 as int);
            assert(args_are(s, p0 as int, args@));
        },
    }
    let p4 = ignore_token0(input, p);
    match expect_char(input, p4, ')') {
        Ok((p5, _)) => {
            let p6 = ignore_token0(input, p5);
            (p6, args)
        },
        Err(_) => (pos, Vec::new()),
    }
}

/// One directive attachment: `@`, the name, an optional argument list.
pub(crate) fn directive(input: &str, pos: usize) -> (r: Result<
    (usize, Positioned<Directive>),
    ParsingError,
>)
    requires
        pos <= input@.len(),
    ensures
        r is Ok <==> directive_start_at(input@, pos as int),
        r matches Ok((np, pd)) ==> np == directive_end(input@, pos as int) && directive_is(
            input@,
            pd,
        ),
        r matches Ok((np, pd)) ==> pd.start == pos && pd.end == np && pos < np <= input@.len()
            && directive_wf(pd.value, pos as int, np as int),
        r matches Ok((np, pd)) ==> pd.value.name.value@ == input@.subrange(
            pd.value.name.start as int,
            pd.value.name.end as int,
        ),
        r matches Err(e) ==> e.offset <= input@.len(),
    decreases input@.len() - pos, 0int,
{
    let (p1, pname) = match directive_name(input, pos) {
        Ok(x) => x,
        Err(e) => {
            return Err(e);
        },
    };
    let p2 = ignore_token0(input, p1);
    let (np, al) = field_argument_list(input, p2);
    Ok((
        np,
        Positioned {
            start: pos,
            end: np,
            value: Directive { name: pname, argument_list: al },
        },
    ))
}

/// Zero or more directive attachments, each preceded by skippable trivia;
/// with `need_one` at least one must be present (the extension policy).
pub(crate) fn directive_list(input: &str, pos: usize, need_one: bool) -> (r: Result<
    (usize, Vec<Positioned<Directive>>),
    ParsingError,
>)
    requires
        pos <= input@.len(),
    ensures
        r matches Ok((np, ds)) ==> pos <= np <= input@.len() && directives_wf(
            ds@,
            pos as int,
            np as int,
        ) && (ds@.len() == 0 ==> np == pos) && (need_one ==> ds@.len() > 0),
        r is Ok <==> !need_one || directive_start_at(input@, pos + ws_run(input@, pos as int)),
        r matches Ok((np, ds)) ==> np == directive_list_end(input@, pos as int) && directives_are(
            input@,
            pos as int,
            ds@,
        ),
        r matches Err(e) ==> e.offset <= input@.len(),
    decreases input@.len() - pos, 1int,
{
    let ghost s = input@;
    let mut ds: Vec<Positioned<Directive>> = Vec::new();
    let q0 = ignore_token0(input, pos);
    let mut p = match directive(input, q0) {
        Ok((p2, pd)) => {
            proof {
                lemma_directives_snoc(s, pos as int, pos as int, Seq::empty(), pd);
                assert(Seq::empty().push(pd) =~= seq![pd]);
            }
            ds.push(pd);
            p2
        },
        Err(e) => {
            proof {
                lemma_directives_complete(s, pos as int, pos as int, Seq::empty());
            }
            if need_one {
                return Err(e);
            }
            return Ok((pos, ds));
        },
    };
    loop
        invariant
            pos < p <= s.len(),
            s == input@,
            directives_wf(ds@, pos as int, p as int),
            directives_chain(s, pos as int, p as int, ds@),
            ds@.len() > 0,
        ensures
            pos < p <= s.len(),
            directives_wf(ds@, pos as int, p as int),
            ds@.len() > 0,
            directives_are(s, pos as int, ds@),
            p as int == directive_list_end(s, pos as int),
        decreases s.len() - p,
    {
        let q = ignore_token0(input, p);
        match directive(input, q) {
            Ok((p2, pd)) => {
                proof {
                    assert(span_ok(pd, pos as int, p2 as int));
                    lemma_directives_snoc(s, pos as int, p as int, ds@, pd);
                }
                ds.push(pd);
                p = p2;
            },
            Err(_) => {
                proof {
                    lemma_directives_complete(s, pos as int, p as int, ds@);
                }
                break ;
            },
        }
    }
    Ok((p, ds))
}

} // verus!
