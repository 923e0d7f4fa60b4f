//! The executable grammar: operation definitions (long-hand and shorthand),
//! fragment definitions, and selection sets of fields, fragment spreads and
//! inline fragments.

use vstd::prelude::*;
use crate::ast::Field;
use crate::ast::FragmentDefinition;
use crate::ast::FragmentSpread;
use crate::ast::InlineFragment;
use crate::ast::OperationDefinition;
use crate::ast::OperationType;
use crate::ast::Positioned;
use crate::ast::Selection;
use crate::ast::VariableDefinition;
use crate::ast::fragment_def_wf;
use crate::ast::inline_wf;
use crate::ast::operation_wf;
use crate::ast::sel_field_wf;
use crate::ast::selection_wf;
use crate::ast::selections_wf;
use crate::ast::spread_wf;
use crate::ast::vardef_wf;
use crate::ast::vardefs_wf;
use crate::ast::lemma_spaced_complete;
use crate::ast::lemma_spaced_snoc;
use crate::ast::spaced_are;
use crate::ast::spaced_chain;
use crate::ast::spaced_list_end;
use crate::common::definition_type;
use crate::common::directive_list_end;
use crate::common::directives_are;
use crate::common::fargs_are;
use crate::common::field_argument_list_end;
use crate::common::keyword_name_end;
use crate::common::ty_end;
use crate::common::ty_is;
use crate::typesystem::op_kw_len;
use crate::typesystem::op_kw_ty;
use crate::common::keyword_name_at;
use crate::value::value_end;
use crate::common::directive_list;
use crate::common::field_argument_list;
use crate::common::operation_type;
use crate::common::ty;
use crate::error::ParsingError;
use crate::lex::expect_char;
use crate::lex::ignore_token0;
use crate::lex::is_name_start;
use crate::lex::ws_run;
use crate::lex::ignore_token1;
use crate::lex::is_ws;
use crate::lex::name;
use crate::lex::name_run;
use crate::lex::trivia_run;
use crate::lex::prefix_at;
use crate::lex::tag;
use crate::value::value;

verus! {


/// The offset right after the fragment spread at `i`, or -1.
pub open spec fn fragment_spread_end(s: Seq<char>, i: int) -> int {
    if prefix_at(s, i, "..."@) {
        let n0 = i + 3 + ws_run(s, i + 3);
        if 0 <= n0 < s.len() && is_name_start(s[n0]) {
            directive_list_end(s, n0 + name_run(s, n0))
        } else {
            -1
        }
    } else {
        -1
    }
}

/// `f` is the fragment spread the text at `i` denotes.
pub open spec fn fragment_spread_is(s: Seq<char>, i: int, f: FragmentSpread) -> bool {
    let n0 = i + 3 + ws_run(s, i + 3);
    let n1 = n0 + name_run(s, n0);
    &&& prefix_at(s, i, "..."@)
    &&& 0 <= n0 < s.len() && is_name_start(s[n0])
    &&& f.name.start == n0 && f.name.end == n1 && f.name.value@ == s.subrange(n0, n1)
    &&& directives_are(s, n1, f.directive_list@)
}

/// The offset right after the inline fragment at `i`, or -1.
pub open spec fn inline_fragment_end(s: Seq<char>, i: int) -> int
    decreases s.len() - i, 0int,
{
    if prefix_at(s, i, "..."@) {
        let p2 = i + 3 + ws_run(s, i + 3);
        let p = if keyword_name_at(s, p2, "on"@) {
            keyword_name_end(s, p2, "on"@)
        } else {
            p2
        };
        if 0 <= p <= s.len() {
            let p4 = directive_list_end(s, p);
            let p5 = p4 + ws_run(s, p4);
            if i < p5 <= s.len() {
                selection_list_end(s, p5)
            } else {
                -1
            }
        } else {
            -1
        }
    } else {
        -1
    }
}

/// The offset right after the field selection at `i`, or -1: an optional
/// `alias :` prefix, the name, optional arguments, directives, an optional
/// nested selection set.
pub open spec fn field_sel_end(s: Seq<char>, i: int) -> int
    decreases s.len() - i, 1int,
{
    if 0 <= i < s.len() && is_name_start(s[i]) {
        let p1 = i + name_run(s, i);
        let a = p1 + ws_run(s, p1);
        if 0 <= a < s.len() && s[a] == ':' {
            let cpos = a + 1 + ws_run(s, a + 1);
            if 0 <= cpos < s.len() && is_name_start(s[cpos]) {
                let p = cpos + name_run(s, cpos);
                if i < p <= s.len() {
                    field_sel_tail(s, p)
                } else {
                    -1
                }
            } else {
                -1
            }
        } else {
            if i < p1 <= s.len() {
                field_sel_tail(s, p1)
            } else {
                -1
            }
        }
    } else {
        -1
    }
}

/// The offset right after the rest of a field selection, starting right
/// after its name at `p`.
pub open spec fn field_sel_tail(s: Seq<char>, p: int) -> int
    decreases s.len() - p, 6int,
{
    let d = p + ws_run(s, p);
    if 0 <= d <= s.len() {
        let e = field_argument_list_end(s, d);
        if 0 <= e <= s.len() {
            let f1 = directive_list_end(s, e);
            if 0 <= f1 <= s.len() && p <= f1 {
                if selection_list_end(s, f1) >= 0 {
                    selection_list_end(s, f1)
                } else {
                    f1
                }
            } else {
                -1
            }
        } else {
            -1
        }
    } else {
        -1
    }
}

/// The offset right after the selection at `i`, the alternatives in
/// declared order: field, fragment spread, inline fragment.  -1 when none
/// stands there.
pub open spec fn selection_end(s: Seq<char>, i: int) -> int
    decreases s.len() - i, 2int,
{
    if field_sel_end(s, i) >= 0 {
        field_sel_end(s, i)
    } else if fragment_spread_end(s, i) >= 0 {
        fragment_spread_end(s, i)
    } else {
        inline_fragment_end(s, i)
    }
}

/// The offset right after the braced selection set at `i`, or -1; at least
/// one selection is required.
pub open spec fn selection_list_end(s: Seq<char>, i: int) -> int
    decreases s.len() - i, 4int,
{
    if 0 <= i < s.len() && s[i] == '{' {
        let q0 = i + 1 + ws_run(s, i + 1);
        if i < q0 <= s.len() && selection_end(s, q0) >= 0 {
            let e0 = selection_end(s, q0);
            if q0 < e0 <= s.len() {
                let j = sels_rest_end(s, e0);
                if 0 <= j <= s.len() {
                    let cc = j + ws_run(s, j);
                    if 0 <= cc < s.len() && s[cc] == '}' {
                        cc + 1
                    } else {
                        -1
                    }
                } else {
                    -1
                }
            } else {
                -1
            }
        } else {
            -1
        }
    } else {
        -1
    }
}

/// The offset right after the selections following the first one.
pub open spec fn sels_rest_end(s: Seq<char>, i: int) -> int
    decreases s.len() - i, 5int,
{
    let q = i + ws_run(s, i);
    if i <= q <= s.len() {
        let e = selection_end(s, q);
        if i < e <= s.len() {
            sels_rest_end(s, e)
        } else {
            i
        }
    } else {
        i
    }
}

/// `sel` is the selection the text at `i` denotes, under the declared
/// alternative order.
pub open spec fn selection_is(s: Seq<char>, i: int, sel: Selection) -> bool
    decreases sel, 2int,
{
    if field_sel_end(s, i) >= 0 {
        sel matches Selection::Field(f) && field_sel_is(s, i, f)
    } else if fragment_spread_end(s, i) >= 0 {
        sel matches Selection::FragmentSpread(f) && fragment_spread_is(s, i, f)
    } else if inline_fragment_end(s, i) >= 0 {
        sel matches Selection::InlineFragment(f) && inline_is(s, i, f)
    } else {
        false
    }
}

/// `f` is the field selection the text at `i` denotes.
pub open spec fn field_sel_is(s: Seq<char>, i: int, f: Field) -> bool
    decreases f, 1int,
{
    let p1 = i + name_run(s, i);
    let a = p1 + ws_run(s, p1);
    let has_alias = 0 <= a < s.len() && s[a] == ':';
    let cpos = a + 1 + ws_run(s, a + 1);
    let nstart = if has_alias {
        cpos
    } else {
        i
    };
    let nend = nstart + name_run(s, nstart);
    let d = nend + ws_run(s, nend);
    let e = field_argument_list_end(s, d);
    let f1 = directive_list_end(s, e);
    &&& 0 <= i < s.len() && is_name_start(s[i])
    &&& (if has_alias {
        f.alias matches Some(al) && al.start == i && al.end == p1 && al.value@ == s.subrange(i, p1)
            && 0 <= cpos < s.len() && is_name_start(s[cpos])
    } else {
        f.alias is None
    })
    &&& f.name.start == nstart && f.name.end == nend && f.name.value@ == s.subrange(nstart, nend)
    &&& fargs_are(s, d, f.argument_list@)
    &&& directives_are(s, e, f.directive_list@)
    &&& (if selection_list_end(s, f1) >= 0 {
        sels_list_is(s, f1, f.selection_list@)
    } else {
        f.selection_list@.len() == 0
    })
}

/// `f` is the inline fragment the text at `i` denotes.
pub open spec fn inline_is(s: Seq<char>, i: int, f: InlineFragment) -> bool
    decreases f, 1int,
{
    let p2 = i + 3 + ws_run(s, i + 3);
    let has_on = keyword_name_at(s, p2, "on"@);
    let n0 = p2 + "on"@.len() + trivia_run(s, p2 + "on"@.len());
    let p = if has_on {
        keyword_name_end(s, p2, "on"@)
    } else {
        p2
    };
    let p4 = directive_list_end(s, p);
    let p5 = p4 + ws_run(s, p4);
    &&& prefix_at(s, i, "..."@)
    &&& (if has_on {
        f.on matches Some(n) && n.start == n0 && n.end == p && n.value@ == s.subrange(n0, p)
    } else {
        f.on is None
    })
    &&& directives_are(s, p, f.directive_list@)
    &&& sels_list_is(s, p5, f.selection_list@)
}

/// `ss` is the content of the braced selection set at `i`.
pub open spec fn sels_list_is(s: Seq<char>, i: int, ss: Seq<Positioned<Selection>>) -> bool
    decreases ss, 4int,
{
    let q0 = i + 1 + ws_run(s, i + 1);
    &&& ss.len() > 0
    &&& ss[0].start == q0 && ss[0].end == selection_end(s, q0)
    &&& selection_is(s, q0, ss[0].value)
    &&& q0 < ss[0].end <= s.len()
    &&& sels_rest_are(s, selection_end(s, q0), ss.subrange(1, ss.len() as int))
}

/// `ss` is the run of selections following the first one.
pub open spec fn sels_rest_are(s: Seq<char>, i: int, ss: Seq<Positioned<Selection>>) -> bool
    decreases ss, 3int,
{
    let q = i + ws_run(s, i);
    if selection_end(s, q) >= 0 {
        &&& ss.len() > 0
        &&& ss[0].start == q && ss[0].end == selection_end(s, q)
        &&& selection_is(s, q, ss[0].value)
        &&& i <= q && q < ss[0].end <= s.len()
        &&& sels_rest_are(s, selection_end(s, q), ss.subrange(1, ss.len() as int))
    } else {
        ss.len() == 0
    }
}

/// A prefix of the later selections, ending at `j`.
pub open spec fn sels_chain(s: Seq<char>, i: int, j: int, ss: Seq<Positioned<Selection>>) -> bool
    decreases ss, 3int,
{
    if ss.len() == 0 {
        j == i
    } else {
        let q = i + ws_run(s, i);
        &&& selection_end(s, q) >= 0
        &&& ss[0].start == q && ss[0].end == selection_end(s, q)
        &&& selection_is(s, q, ss[0].value)
        &&& i <= q && q < ss[0].end <= s.len()
        &&& sels_chain(s, selection_end(s, q), j, ss.subrange(1, ss.len() as int))
    }
}

pub proof fn lemma_sels_snoc(
    s: Seq<char>,
    i: int,
    j: int,
    ss: Seq<Positioned<Selection>>,
    x: Positioned<Selection>,
)
    requires
        sels_chain(s, i, j, ss),
        selection_end(s, j + ws_run(s, j)) >= 0,
        x.start == j + ws_run(s, j),
        x.end == selection_end(s, j + ws_run(s, j)),
        selection_is(s, x.start as int, x.value),
        j <= x.start && x.start < x.end <= s.len(),
    ensures
        sels_chain(s, i, x.end as int, ss.push(x)),
    decreases ss.len(),
{
    reveal_with_fuel(sels_chain, 3);
    if ss.len() == 0 {
        assert(ss.push(x).subrange(1, 1) =~= Seq::<Positioned<Selection>>::empty());
    } else {
        let q = i + ws_run(s, i);
        lemma_sels_snoc(s, selection_end(s, q), j, ss.subrange(1, ss.len() as int), x);
        assert(ss.push(x).subrange(1, ss.len() as int + 1) =~= ss.subrange(1, ss.len() as int).push(
            x,
        ));
    }
}

pub proof fn lemma_sels_complete(s: Seq<char>, i: int, j: int, ss: Seq<Positioned<Selection>>)
    requires
        sels_chain(s, i, j, ss),
        selection_end(s, j + ws_run(s, j)) < 0,
        0 <= i <= s.len(),
    ensures
        sels_rest_are(s, i, ss),
        j == sels_rest_end(s, i),
    decreases ss.len(),
{
    crate::lex::lemma_run_bounds(s, i, |c: char| crate::lex::is_ws(c));
    if ss.len() > 0 {
        let q = i + ws_run(s, i);
        lemma_sels_complete(s, selection_end(s, q), j, ss.subrange(1, ss.len() as int));
    }
}

/// The offset right after the variable declaration at `i`, or -1.
pub open spec fn variable_definition_end(s: Seq<char>, i: int) -> int {
    if 0 <= i < s.len() && s[i] == '$' {
        let n0 = i + 1 + ws_run(s, i + 1);
        if 0 <= n0 < s.len() && is_name_start(s[n0]) {
            let n1 = n0 + name_run(s, n0);
            let a = n1 + ws_run(s, n1);
            if 0 <= a < s.len() && s[a] == ':' {
                let t0 = a + 1 + ws_run(s, a + 1);
                if t0 <= s.len() && ty_end(s, t0) >= 0 {
                    let p7 = ty_end(s, t0);
                    let q1 = p7 + ws_run(s, p7);
                    let q3 = q1 + 1 + ws_run(s, q1 + 1);
                    if 0 <= q1 < s.len() && s[q1] == '=' && value_end(s, q3) >= 0 {
                        value_end(s, q3)
                    } else {
                        p7
                    }
                } else {
                    -1
                }
            } else {
                -1
            }
        } else {
            -1
        }
    } else {
        -1
    }
}

/// `pv` is the variable declaration the text at its start denotes.
pub open spec fn variable_definition_is(s: Seq<char>, pv: Positioned<VariableDefinition>) -> bool {
    let i = pv.start as int;
    let n0 = i + 1 + ws_run(s, i + 1);
    let n1 = n0 + name_run(s, n0);
    let a = n1 + ws_run(s, n1);
    let t0 = a + 1 + ws_run(s, a + 1);
    let p7 = ty_end(s, t0);
    let q1 = p7 + ws_run(s, p7);
    let q3 = q1 + 1 + ws_run(s, q1 + 1);
    let has_default = 0 <= q1 < s.len() && s[q1] == '=' && value_end(s, q3) >= 0;
    &&& 0 <= i < s.len() && s[i] == '$'
    &&& 0 <= n0 < s.len() && is_name_start(s[n0])
    &&& pv.value.name.start == n0 && pv.value.name.end == n1 && pv.value.name.value@ == s.subrange(
        n0,
        n1,
    )
    &&& 0 <= a < s.len() && s[a] == ':'
    &&& ty_end(s, t0) >= 0 && pv.value.ty.start == t0 && pv.value.ty.end == p7 && ty_is(
        s,
        t0,
        pv.value.ty.value,
    )
    &&& (if has_default {
        pv.value.default_value matches Some(dv) && dv.start == q3 && dv.end == value_end(s, q3)
            && crate::value::value_is(s, q3, dv.value)
    } else {
        pv.value.default_value is None
    })
    &&& pv.end == variable_definition_end(s, i)
    &&& i < pv.end <= s.len()
}

/// The offset right after the parenthesized variable list at `i`, or -1; at
/// least one declaration is required.
pub open spec fn variable_definition_list_end(s: Seq<char>, i: int) -> int {
    if 0 <= i < s.len() && s[i] == '(' {
        if variable_definition_end(s, i + 1 + ws_run(s, i + 1)) >= 0 {
            let q = spaced_list_end(s, i + 1, |s2: Seq<char>, p: int| variable_definition_end(s2, p));
            if 0 <= q <= s.len() {
                let c = q + ws_run(s, q);
                if 0 <= c < s.len() && s[c] == ')' {
                    c + 1
                } else {
                    -1
                }
            } else {
                -1
            }
        } else {
            -1
        }
    } else {
        -1
    }
}

/// `vs` is the content of the variable list at `i`.
pub open spec fn vardefs_are(s: Seq<char>, i: int, vs: Seq<Positioned<VariableDefinition>>) -> bool {
    spaced_are(
        s,
        i + 1,
        vs,
        |s2: Seq<char>, p: int| variable_definition_end(s2, p),
        |s2: Seq<char>, x: Positioned<VariableDefinition>| variable_definition_is(s2, x),
    )
}

/// The offset where an operation's selection set starts: after the optional
/// keyword/name/variables/directives preamble, or at `i` itself for the
/// shorthand form.
pub open spec fn operation_preamble_end(s: Seq<char>, i: int) -> int {
    let k = op_kw_len(s, i);
    if k >= 0 && i + k < s.len() && (is_ws(s[i + k]) || s[i + k] == '#') {
        let p2 = i + k + trivia_run(s, i + k);
        let q1 = if 0 <= p2 < s.len() && is_name_start(s[p2]) {
            let ne = p2 + name_run(s, p2);
            ne + ws_run(s, ne)
        } else {
            p2
        };
        let q2 = if variable_definition_list_end(s, q1) >= 0 {
            variable_definition_list_end(s, q1)
        } else {
            q1
        };
        let q3 = directive_list_end(s, q2);
        q3 + ws_run(s, q3)
    } else {
        i
    }
}

/// The offset right after the operation at `i`, or -1.
pub open spec fn operation_end(s: Seq<char>, i: int) -> int {
    let p = operation_preamble_end(s, i);
    if 0 <= p <= s.len() {
        selection_list_end(s, p)
    } else {
        -1
    }
}

/// `o` is the operation the text at `i` denotes: the long-hand preamble
/// when the keyword and its separator stand there, the shorthand defaults
/// otherwise.
pub open spec fn operation_is(s: Seq<char>, i: int, o: OperationDefinition) -> bool {
    let k = op_kw_len(s, i);
    let long = k >= 0 && i + k < s.len() && (is_ws(s[i + k]) || s[i + k] == '#');
    let p2 = i + k + trivia_run(s, i + k);
    let has_name = 0 <= p2 < s.len() && is_name_start(s[p2]);
    let ne = p2 + name_run(s, p2);
    let q1 = if has_name {
        ne + ws_run(s, ne)
    } else {
        p2
    };
    let has_vars = variable_definition_list_end(s, q1) >= 0;
    let q2 = if has_vars {
        variable_definition_list_end(s, q1)
    } else {
        q1
    };
    &&& (if long {
        &&& o.ty == op_kw_ty(s, i)
        &&& (if has_name {
            o.name matches Some(n) && n.start == p2 && n.end == ne && n.value@ == s.subrange(p2, ne)
        } else {
            o.name is None
        })
        &&& (if has_vars {
            vardefs_are(s, q1, o.variable_list@)
        } else {
            o.variable_list@.len() == 0
        })
        &&& directives_are(s, q2, o.directive_list@)
    } else {
        &&& o.ty == OperationType::Query
        &&& o.name is None
        &&& o.variable_list@.len() == 0
        &&& o.directive_list@.len() == 0
    })
    &&& sels_list_is(s, operation_preamble_end(s, i), o.selection_list@)
}

/// The offset right after the fragment definition at `i`, or -1.
pub open spec fn fragment_end(s: Seq<char>, i: int) -> int {
    if keyword_name_at(s, i, "fragment"@) {
        let p1 = keyword_name_end(s, i, "fragment"@);
        if p1 < s.len() && (is_ws(s[p1]) || s[p1] == '#') {
            let p2 = p1 + trivia_run(s, p1);
            if keyword_name_at(s, p2, "on"@) {
                let p5 = keyword_name_end(s, p2, "on"@);
                let p6 = directive_list_end(s, p5);
                let p7 = p6 + ws_run(s, p6);
                if 0 <= p7 <= s.len() {
                    selection_list_end(s, p7)
                } else {
                    -1
                }
            } else {
                -1
            }
        } else {
            -1
        }
    } else {
        -1
    }
}

/// `f` is the fragment definition the text at `i` denotes.
pub open spec fn fragment_is(s: Seq<char>, i: int, f: FragmentDefinition) -> bool {
    let n0 = i + "fragment"@.len() + trivia_run(s, i + "fragment"@.len());
    let p1 = keyword_name_end(s, i, "fragment"@);
    let p2 = p1 + trivia_run(s, p1);
    let o0 = p2 + "on"@.len() + trivia_run(s, p2 + "on"@.len());
    let p5 = keyword_name_end(s, p2, "on"@);
    let p6 = directive_list_end(s, p5);
    let p7 = p6 + ws_run(s, p6);
    &&& keyword_name_at(s, i, "fragment"@)
    &&& f.name.start == n0 && f.name.end == p1 && f.name.value@ == s.subrange(n0, p1)
    &&& p1 < s.len() && (is_ws(s[p1]) || s[p1] == '#')
    &&& keyword_name_at(s, p2, "on"@)
    &&& f.on.start == o0 && f.on.end == p5 && f.on.value@ == s.subrange(o0, p5)
    &&& directives_are(s, p5, f.directive_list@)
    &&& sels_list_is(s, p7, f.selection_list@)
}

/// One variable declaration: `$name : Type`, optionally `= defaultValue`.
pub(crate) fn variable_definition(input: &str, pos: usize) -> (r: Result<
    (usize, Positioned<VariableDefinition>),
    ParsingError,
>)
    requires
        pos <= input@.len(),
    ensures
        r is Ok <==> variable_definition_end(input@, pos as int) >= 0,
        r matches Ok((np, pv)) ==> np == variable_definition_end(input@, pos as int)
            && variable_definition_is(input@, pv),
        r matches Ok((np, pv)) ==> pv.start == pos && pv.end == np && pos < np <= input@.len()
            && vardef_wf(pv.value, pos as int, np as int),
        r matches Ok((np, pv)) ==> pv.value.name.value@ == input@.subrange(
            pv.value.name.start as int,
            pv.value.name.end as int,
        ),
        r matches Ok((np, pv)) ==> (pv.value.default_value matches Some(dv)
            ==> crate::value::numeric_value_exact(input@, dv.start as int, dv.end as int, dv.value)),
        r matches Err(e) ==> e.offset <= input@.len(),
{
    let (p1, _) = match expect_char(input, pos, '$') {
        Ok(x) => x,
        Err(e) => {
            return Err(e);
        },
    };
    let p2 = ignore_token0(input, p1);
    let (p3, pname) = match name(input, p2) {
        Ok((np, nm)) => (np, Positioned { start: p2, end: np, value: nm }),
        Err(e) => {
            return Err(e);
        },
    };
    let p4 = ignore_token0(input, p3);
    let (p5, _) = match expect_char(input, p4, ':') {
        Ok(x) => x,
        Err(e) => {
            return Err(e);
        },
    };
    let p6 = ignore_token0(input, p5);
    let (p7, pty) = match ty(input, p6) {
        Ok((np, t)) => (np, Positioned { start: p6, end: np, value: t }),
        Err(e) => {
            return Err(e);
        },
    };
    let mut np = p7;
    let mut default_value: Option<Positioned<crate::ast::Value>> = None;
    let q1 = ignore_token0(input, p7);
    match expect_char(input, q1, '=') {
        Ok((q2, _)) => {
            let q3 = ignore_token0(input, q2);
            match value(input, q3) {
                Ok((q4, v)) => {
                    default_value = Some(Positioned { start: q3, end: q4, value: v });
                    np = q4;
                },
                Err(_) => {},
            }
        },
        Err(_) => {},
    }
    Ok((
        np,
        Positioned {
            start: pos,
            end: np,
            value: VariableDefinition { name: pname, ty: pty, default_value },
        },
    ))
}

/// A parenthesized list of one or more variable declarations.
pub(crate) fn variable_definition_list(input: &str, pos: usize) -> (r: Result<
    (usize, Vec<Positioned<VariableDefinition>>),
    ParsingError,
>)
    requires
        pos <= input@.len(),
    ensures
        r is Ok <==> variable_definition_list_end(input@, pos as int) >= 0,
        r matches Ok((np, vs)) ==> np == variable_definition_list_end(input@, pos as int)
            && vardefs_are(input@, pos as int, vs@),
        r matches Ok((np, vs)) ==> pos < np <= input@.len() && vardefs_wf(
            vs@,
            pos as int,
            np as int,
        ) && vs@.len() > 0,
        r matches Err(e) ==> e.offset <= input@.len(),
{
    let ghost s = input@;
    let (p1, _) = match expect_char(input, pos, '(') {
        Ok(x) => x,
        Err(e) => {
            return Err(e);
        },
    };
    let q0 = ignore_token0(input, p1);
    let mut vars: Vec<Positioned<VariableDefinition>> = Vec::new();
    let mut p = match variable_definition(input, q0) {
        Ok((p2, v)) => {
            proof {
                lemma_spaced_snoc(
                    s,
                    p1 as int,
                    p1 as int,
                    vars@,
                    v,
                    |s2: Seq<char>, pp: int| variable_definition_end(s2, pp),
                    |s2: Seq<char>, x: Positioned<VariableDefinition>| variable_definition_is(
                        s2,
                        x,
                    ),
                );
                assert(vars@.push(v) =~= seq![v]);
            }
            vars.push(v);
            p2
        },
        Err(e) => {
            return Err(e);
        },
    };
    loop
        invariant
            pos < p1 <= p <= s.len(),
            s == input@,
            vardefs_wf(vars@, pos as int, p as int),
            vars@.len() > 0,
            spaced_chain(
                s,
                p1 as int,
                p as int,
                vars@,
                |s2: Seq<char>, pp: int| variable_definition_end(s2, pp),
                |s2: Seq<char>, x: Positioned<VariableDefinition>| variable_definition_is(s2, x),
            ),
        ensures
            pos < p1 <= p <= s.len(),
            vardefs_wf(vars@, pos as int, p as int),
            vars@.len() > 0,
            spaced_are(
                s,
                p1 as int,
                vars@,
                |s2: Seq<char>, pp: int| variable_definition_end(s2, pp),
                |s2: Seq<char>, x: Positioned<VariableDefinition>| variable_definition_is(s2, x),
            ),
            p as int == spaced_list_end(
                s,
                p1 as int,
                |s2: Seq<char>, pp: int| variable_definition_end(s2, pp),
            ),
        decreases s.len() - p,
    {
        let q = ignore_token0(input, p);
        match variable_definition(input, q) {
            Ok((p3, v2)) => {
                proof {
                    lemma_spaced_snoc(
                        s,
                        p1 as int,
                        p as int,
                        vars@,
                        v2,
                        |s2: Seq<char>, pp: int| variable_definition_end(s2, pp),
                        |s2: Seq<char>, x: Positioned<VariableDefinition>| variable_definition_is(
                            s2,
                            x,
                        ),
                    );
                }
                vars.push(v2);
                p = p3;
            },
            Err(_) => {
                proof {
                    lemma_spaced_complete(
                        s,
                        p1 as int,
                        p as int,
                        vars@,
                        |s2: Seq<char>, pp: int| variable_definition_end(s2, pp),
                        |s2: Seq<char>, x: Positioned<VariableDefinition>| variable_definition_is(
                            s2,
                            x,
                        ),
                    );
                }
                break ;
            },
        }
    }
    let p4 = ignore_token0(input, p);
    match expect_char(input, p4, ')') {
        Ok((p5, _)) => Ok((p5, vars)),
        Err(e) => Err(e),
    }
}

/// A braced list of one or more selections.
pub(crate) fn selection_list(input: &str, pos: usize) -> (r: Result<
    (usize, Vec<Positioned<Selection>>),
    ParsingError,
>)
    requires
        pos <= input@.len(),
    ensures
        r is Ok <==> selection_list_end(input@, pos as int) >= 0,
        r matches Ok((np, ss)) ==> np == selection_list_end(input@, pos as int) && sels_list_is(
            input@,
            pos as int,
            ss@,
        ),
        r matches Ok((np, ss)) ==> pos < np <= input@.len() && selections_wf(
            ss@,
            pos as int,
            np as int,
        ) && ss@.len() > 0,
        r matches Err(e) ==> e.offset <= input@.len(),
    decreases input@.len() - pos, 3int,
{
    let ghost s = input@;
    let (p1, _) = match expect_char(input, pos, '{') {
        Ok(x) => x,
        Err(e) => {
            return Err(e);
        },
    };
    let q0 = ignore_token0(input, p1);
    let mut sels: Vec<Positioned<Selection>> = Vec::new();
    let ghost e0: int;
    let mut p = match selection(input, q0) {
        Ok((p2, sel)) => {
            proof {
                e0 = p2 as int;
                assert(sels@.push(Positioned { start: q0, end: p2, value: sel }).subrange(1, 1)
                    =~= Seq::<Positioned<Selection>>::empty());
            }
            sels.push(Positioned { start: q0, end: p2, value: sel });
            p2
        },
        Err(e) => {
            return Err(e);
        },
    };
    loop
        invariant
            pos < q0 <= p <= s.len(),
            s == input@,
            selections_wf(sels@, pos as int, p as int),
            sels@.len() > 0,
            sels@[0].start == q0 && sels@[0].end == e0,
            e0 == selection_end(s, q0 as int),
            selection_is(s, q0 as int, sels@[0].value),
            q0 < e0 <= s.len(),
            sels_chain(s, e0, p as int, sels@.subrange(1, sels@.len() as int)),
        ensures
            pos < q0 <= p <= s.len(),
            selections_wf(sels@, pos as int, p as int),
            sels@.len() > 0,
            sels@[0].start == q0 && sels@[0].end == e0,
            e0 == selection_end(s, q0 as int),
            selection_is(s, q0 as int, sels@[0].value),
            q0 < e0 <= s.len(),
            sels_rest_are(s, e0, sels@.subrange(1, sels@.len() as int)),
            p as int == sels_rest_end(s, e0),
        decreases s.len() - p,
    {
        let q = ignore_token0(input, p);
        match selection(input, q) {
            Ok((p3, sel2)) => {
                proof {
                    lemma_sels_snoc(
                        s,
                        e0,
                        p as int,
                        sels@.subrange(1, sels@.len() as int),
                        Positioned { start: q, end: p3, value: sel2 },
                    );
                    assert(sels@.push(Positioned { start: q, end: p3, value: sel2 }).subrange(
                        1,
                        sels@.len() as int + 1,
                    ) =~= sels@.subrange(1, sels@.len() as int).push(
                        Positioned { start: q, end: p3, value: sel2 },
                    ));
                }
                sels.push(Positioned { start: q, end: p3, value: sel2 });
                p = p3;
            },
            Err(_) => {
                proof {
                    lemma_sels_complete(s, e0, p as int, sels@.subrange(1, sels@.len() as int));
                }
                break ;
            },
        }
    }
    let p4 = ignore_token0(input, p);
    match expect_char(input, p4, '}') {
        Ok((p5, _)) => Ok((p5, sels)),
        Err(e) => Err(e),
    }
}

/// One selection: a field, a fragment spread or an inline fragment, tried
/// in that order; the failure of the last alternative surfaces.
pub(crate) fn selection(input: &str, pos: usize) -> (r: Result<(usize, Selection), ParsingError>)
    requires
        pos <= input@.len(),
    ensures
        r is Ok <==> selection_end(input@, pos as int) >= 0,
        r matches Ok((np, sel)) ==> np == selection_end(input@, pos as int) && selection_is(
            input@,
            pos as int,
            sel,
        ),
        r matches Ok((np, sel)) ==> pos < np <= input@.len() && selection_wf(
            sel,
            pos as int,
            np as int,
        ),
        r matches Err(e) ==> e.offset <= input@.len(),
    decreases input@.len() - pos, 2int,
{
    match field(input, pos) {
        Ok((np, f)) => {
            return Ok((np, Selection::Field(f)));
        },
        Err(_) => {},
    }
    match fragment_spread(input, pos) {
        Ok((np, f)) => {
            return Ok((np, Selection::FragmentSpread(f)));
        },
        Err(_) => {},
    }
    match inline_fragment(input, pos) {
        Ok((np, f)) => Ok((np, Selection::InlineFragment(f))),
        Err(e) => Err(e),
    }
}

/// A field selection: an optional `alias :` prefix, the name, optional
/// arguments, directives, and an optional nested selection set (absent for
/// a leaf field).
pub(crate) fn field(input: &str, pos: usize) -> (r: Result<(usize, Field), ParsingError>)
    requires
        pos <= input@.len(),
    ensures
        r is Ok <==> field_sel_end(input@, pos as int) >= 0,
        r matches Ok((np, f)) ==> np == field_sel_end(input@, pos as int) && field_sel_is(
            input@,
            pos as int,
            f,
        ),
        r matches Ok((np, f)) ==> pos < np <= input@.len() && sel_field_wf(f, pos as int, np as int),
        r matches Ok((np, f)) ==> f.name.value@ == input@.subrange(
            f.name.start as int,
            f.name.end as int,
        ),
        r matches Err(e) ==> e.offset <= input@.len(),
    decreases input@.len() - pos, 1int,
{
    let (p1, n1) = match name(input, pos) {
        Ok(x) => x,
        Err(e) => {
            return Err(e);
        },
    };
    // `alias :` prefix: when a colon follows the first name, a second name
    // is required and the first becomes the alias
    let mut alias: Option<Positioned<String>> = None;
    let mut pname = Positioned { start: pos, end: p1, value: n1 };
    let mut p = p1;
    let a = ignore_token0(input, p1);
    match expect_char(input, a, ':') {
        Ok((b, _)) => {
            let c = ignore_token0(input, b);
            match name(input, c) {
                Ok((p2, n2)) => {
                    alias = Some(pname);
                    pname = Positioned { start: c, end: p2, value: n2 };
                    p = p2;
                },
                Err(e) => {
                    return Err(e);
                },
            }
        },
        Err(_) => {},
    }
    let d = ignore_token0(input, p);
    let (e, args) = field_argument_list(input, d);
    let (f1, dl) = match directive_list(input, e, false) {
        Ok(x) => x,
        Err(er) => {
            return Err(er);
        },
    };
    let mut np = f1;
    let mut sels: Vec<Positioned<Selection>> = Vec::new();
    match selection_list(input, f1) {
        Ok((p3, ss)) => {
            sels = ss;
            np = p3;
        },
        Err(_) => {},
    }
    Ok((
        np,
        Field { name: pname, alias, argument_list: args, selection_list: sels, directive_list: dl },
    ))
}

/// A fragment spread: `...`, the fragment's name, directives.
pub(crate) fn fragment_spread(input: &str, pos: usize) -> (r: Result<
    (usize, FragmentSpread),
    ParsingError,
>)
    requires
        pos <= input@.len(),
    ensures
        r is Ok <==> prefix_at(input@, pos as int, "..."@) && pos + 3 + ws_run(input@, pos + 3)
            < input@.len() && is_name_start(input@[pos + 3 + ws_run(input@, pos + 3)]),
        r matches Ok((np, f)) ==> np == fragment_spread_end(input@, pos as int)
            && fragment_spread_is(input@, pos as int, f),
        r matches Ok((np, f)) ==> pos < np <= input@.len() && spread_wf(f, pos as int, np as int),
        r matches Ok((np, f)) ==> f.name.value@ == input@.subrange(
            f.name.start as int,
            f.name.end as int,
        ),
        r matches Err(e) ==> e.offset <= input@.len(),
{
    proof {
        reveal_strlit("...");
    }
    let (p1, _) = match tag(input, pos, "...") {
        Ok(x) => x,
        Err(e) => {
            return Err(e);
        },
    };
    let p2 = ignore_token0(input, p1);
    let (p3, pname) = match name(input, p2) {
        Ok((np, nm)) => (np, Positioned { start: p2, end: np, value: nm }),
        Err(e) => {
            return Err(e);
        },
    };
    match directive_list(input, p3, false) {
        Ok((np, dl)) => Ok((np, FragmentSpread { name: pname, directive_list: dl })),
        Err(e) => Err(e),
    }
}

/// An inline fragment: `...`, an optional `on Name` clause, directives, and
/// a mandatory nested selection set.
pub(crate) fn inline_fragment(input: &str, pos: usize) -> (r: Result<
    (usize, InlineFragment),
    ParsingError,
>)
    requires
        pos <= input@.len(),
    ensures
        r is Ok <==> inline_fragment_end(input@, pos as int) >= 0,
        r matches Ok((np, f)) ==> np == inline_fragment_end(input@, pos as int) && inline_is(
            input@,
            pos as int,
            f,
        ),
        r matches Ok((np, f)) ==> pos < np <= input@.len() && inline_wf(f, pos as int, np as int),
        r matches Err(e) ==> e.offset <= input@.len(),
    decreases input@.len() - pos, 1int,
{
    let (p1, _) = match tag(input, pos, "...") {
        Ok(x) => x,
        Err(e) => {
            return Err(e);
        },
    };
    proof {
        reveal_strlit("...");
    }
    let p2 = ignore_token0(input, p1);
    let mut on: Option<Positioned<String>> = None;
    let mut p = p2;
    match definition_type(input, p2, "on") {
        Ok((p3, pn)) => {
            on = Some(pn);
            p = p3;
        },
        Err(_) => {},
    }
    let (p4, dl) = match directive_list(input, p, false) {
        Ok(x) => x,
        Err(e) => {
            return Err(e);
        },
    };
    let p5 = ignore_token0(input, p4);
    match selection_list(input, p5) {
        Ok((np, sels)) => Ok(
            (np, InlineFragment { on, selection_list: sels, directive_list: dl }),
        ),
        Err(e) => Err(e),
    }
}

/// An operation definition.  The whole keyword/name/variables/directives
/// preamble is optional: the shorthand form is a bare selection set with
/// type `query`, no name, no variables and no directives.
pub(crate) fn operation(input: &str, pos: usize) -> (r: Result<
    (usize, OperationDefinition),
    ParsingError,
>)
    requires
        pos <= input@.len(),
    ensures
        r is Ok <==> operation_end(input@, pos as int) >= 0,
        r matches Ok((np, o)) ==> np == operation_end(input@, pos as int) && operation_is(
            input@,
            pos as int,
            o,
        ),
        r matches Ok((np, o)) ==> pos < np <= input@.len() && operation_wf(o, pos as int, np as int),
        r matches Ok((np, o)) ==> (!(prefix_at(input@, pos as int, "query"@) || prefix_at(
            input@,
            pos as int,
            "mutation"@,
        ) || prefix_at(input@, pos as int, "subscription"@)) ==> o.ty == OperationType::Query
            && o.name is None && o.variable_list@.len() == 0 && o.directive_list@.len() == 0),
        r matches Err(e) ==> e.offset <= input@.len(),
{
    proof {
        reveal_strlit("query");
        reveal_strlit("mutation");
        reveal_strlit("subscription");
    }
    let mut opty = OperationType::Query;
    let mut pname: Option<Positioned<String>> = None;
    let mut vars: Vec<Positioned<VariableDefinition>> = Vec::new();
    let mut dl: Vec<Positioned<crate::ast::Directive>> = Vec::new();
    let mut p = pos;
    match operation_type(input, pos) {
        Ok((p1, t)) => match ignore_token1(input, p1) {
            Ok((p2, _)) => {
                opty = t;
                let mut q = p2;
                match name(input, p2) {
                    Ok((q1, nm)) => {
                        pname = Some(Positioned { start: p2, end: q1, value: nm });
                        q = ignore_token0(input, q1);
                    },
                    Err(_) => {},
                }
                match variable_definition_list(input, q) {
                    Ok((q2, vs)) => {
                        vars = vs;
                        q = q2;
                    },
                    Err(_) => {},
                }
                match directive_list(input, q, false) {
                    Ok((q3, ds)) => {
                        dl = ds;
                        q = q3;
                    },
                    Err(_) => {},
                }
                p = ignore_token0(input, q);
            },
            Err(_) => {},
        },
        Err(_) => {},
    }
    match selection_list(input, p) {
        Ok((np, sels)) => Ok(
            (
                np,
                OperationDefinition {
                    ty: opty,
                    name: pname,
                    variable_list: vars,
                    selection_list: sels,
                    directive_list: dl,
                },
            ),
        ),
        Err(e) => Err(e),
    }
}

/// A fragment definition: `fragment Name on TypeName`, directives, and a
/// mandatory selection set.
pub(crate) fn fragment(input: &str, pos: usize) -> (r: Result<
    (usize, FragmentDefinition),
    ParsingError,
>)
    requires
        pos <= input@.len(),
    ensures
        r is Ok <==> fragment_end(input@, pos as int) >= 0,
        r matches Ok((np, f)) ==> np == fragment_end(input@, pos as int) && fragment_is(
            input@,
            pos as int,
            f,
        ),
        r matches Ok((np, f)) ==> keyword_name_at(input@, pos as int, "fragment"@),
        r matches Ok((np, f)) ==> pos < np <= input@.len() && fragment_def_wf(
            f,
            pos as int,
            np as int,
        ),
        r matches Ok((np, f)) ==> f.name.value@ == input@.subrange(
            f.name.start as int,
            f.name.end as int,
        ) && f.on.value@ == input@.subrange(f.on.start as int, f.on.end as int),
        r matches Err(e) ==> e.offset <= input@.len(),
{
    let (p1, pname) = match definition_type(input, pos, "fragment") {
        Ok(x) => x,
        Err(e) => {
            return Err(e);
        },
    };
    let (p2, _) = match ignore_token1(input, p1) {
        Ok(x) => x,
        Err(e) => {
            return Err(e);
        },
    };
    let (p3, _) = match tag(input, p2, "on") {
        Ok(x) => x,
        Err(e) => {
            return Err(e);
        },
    };
    let (p4, _) = match ignore_token1(input, p3) {
        Ok(x) => x,
        Err(e) => {
            return Err(e);
        },
    };
    let (p5, on) = match name(input, p4) {
        Ok((np, nm)) => (np, Positioned { start: p4, end: np, value: nm }),
        Err(e) => {
            return Err(e);
        },
    };
    let (p6, dl) = match directive_list(input, p5, false) {
        Ok(x) => x,
        Err(e) => {
            return Err(e);
        },
    };
    let p7 = ignore_token0(input, p6);
    match selection_list(input, p7) {
        Ok((np, sels)) => Ok(
            (
                np,
                FragmentDefinition { name: pname, on, selection_list: sels, directive_list: dl },
            ),
        ),
        Err(e) => Err(e),
    }
}

} // verus!
