//! The value grammar: ordered alternatives tried as declared, first match
//! wins.  The order is `null`, boolean, numeric, bare identifier (an enum
//! value), string, object, list; when none applies the parse fails with a
//! generic diagnostic at the starting offset.
//!
//! Object and list literals carry no surrounding braces or brackets of
//! their own; an object is one or more `name : value` pairs and a list is
//! one or more values, both separated by required trivia.

use vstd::prelude::*;
use crate::ast::Value;
use crate::ast::object_keys_unique;
use crate::ast::value_wf;
use crate::error::ErrorKind;
use crate::error::ParsingError;
use crate::lex::ignore_token0;
use crate::lex::ignore_token1;
use crate::lex::expect_char;
use crate::lex::is_name_start;
use crate::lex::name;
use crate::lex::name_run;
use crate::lex::ws_run;
use crate::lex::prefix_at;
use crate::lex::string;
use crate::lex::string_at;
use crate::lex::string_run;
use crate::lex::tag;
use crate::numeric::int_value_fits;
use crate::numeric::num_int_len;
use crate::numeric::num_int_value;
use crate::numeric::num_sign_len;
use crate::numeric::num_is_float;
use crate::numeric::num_token_len;
use crate::numeric::value_numeric;

verus! {

/// The offset right after the value standing at `i`, or -1 when no
/// alternative of the value grammar matches there.  The alternatives are
/// tried in declared order; an integer literal too large for 64 signed
/// bits is no value.  The object and list alternatives never decide this:
/// an object or list starts with a value that an earlier alternative
/// already takes (a bare identifier reads as an enum value first), so a
/// position where every non-recursive alternative fails offers no object
/// and no list either.
pub open spec fn value_end(s: Seq<char>, i: int) -> int {
    if prefix_at(s, i, "null"@) {
        i + "null"@.len()
    } else if prefix_at(s, i, "true"@) {
        i + "true"@.len()
    } else if prefix_at(s, i, "false"@) {
        i + "false"@.len()
    } else if num_token_len(s, i) > 0 {
        if num_is_float(s, i) || int_value_fits(s, i) {
            i + num_token_len(s, i)
        } else {
            -1
        }
    } else if 0 <= i < s.len() && is_name_start(s[i]) {
        i + name_run(s, i)
    } else if string_at(s, i) {
        i + 2 + string_run(s, i + 1)
    } else {
        -1
    }
}

/// `v` is exactly the value that the text at `i` denotes, under the
/// declared alternative order.
pub open spec fn value_is(s: Seq<char>, i: int, v: Value) -> bool {
    if prefix_at(s, i, "null"@) {
        v == Value::Null
    } else if prefix_at(s, i, "true"@) {
        v == Value::Boolean(true)
    } else if prefix_at(s, i, "false"@) {
        v == Value::Boolean(false)
    } else if num_token_len(s, i) > 0 {
        if num_is_float(s, i) {
            v matches Value::Float(t) && t@ == s.subrange(i, i + num_token_len(s, i))
        } else {
            v matches Value::Int(x) && x as int == num_int_value(s, i)
        }
    } else if 0 <= i < s.len() && is_name_start(s[i]) {
        v matches Value::Enum(nm) && nm@ == s.subrange(i, i + name_run(s, i))
    } else if string_at(s, i) {
        v matches Value::String(st) && st@ == s.subrange(i + 1, i + 1 + string_run(s, i + 1))
    } else {
        false
    }
}

/// A numeric value is exactly what the boundary detector reports: an
/// integer value is the literal's mathematical value, a float value is the
/// literal's exact source text, and either spans the whole literal.
pub open spec fn numeric_value_exact(s: Seq<char>, pos: int, np: int, v: Value) -> bool {
    &&& (v matches Value::Int(x) ==> !num_is_float(s, pos) && np == pos + num_token_len(s, pos)
        && x as int == num_int_value(s, pos))
    &&& (v matches Value::Float(tx) ==> num_is_float(s, pos) && np == pos + num_token_len(s, pos)
        && tx@ == s.subrange(pos, np))
}

/// The `null` literal.
pub(crate) fn value_null(input: &str, pos: usize) -> (r: Result<(usize, Value), ParsingError>)
    requires
        pos <= input@.len(),
    ensures
        r is Ok <==> prefix_at(input@, pos as int, "null"@),
        r matches Ok((np, v)) ==> np == pos + "null"@.len() && pos < np <= input@.len() && v
            == Value::Null,
        r matches Err(e) ==> e.offset == pos,
{
    proof {
        reveal_strlit("null");
    }
    match tag(input, pos, "null") {
        Ok((np, _)) => Ok((np, Value::Null)),
        Err(e) => Err(e),
    }
}

/// The boolean literals, `true` tried before `false`.
pub(crate) fn value_boolean(input: &str, pos: usize) -> (r: Result<(usize, Value), ParsingError>)
    requires
        pos <= input@.len(),
    ensures
        r is Ok <==> prefix_at(input@, pos as int, "true"@) || prefix_at(
            input@,
            pos as int,
            "false"@,
        ),
        r matches Ok((np, v)) ==> pos < np <= input@.len() && (prefix_at(
            input@,
            pos as int,
            "true"@,
        ) ==> v == Value::Boolean(true) && np == pos + 4) && (!prefix_at(
            input@,
            pos as int,
            "true"@,
        ) ==> v == Value::Boolean(false) && np == pos + 5),
        r matches Err(e) ==> e.offset == pos,
{
    proof {
        reveal_strlit("true");
        reveal_strlit("false");
    }
    match tag(input, pos, "true") {
        Ok((np, _)) => Ok((np, Value::Boolean(true))),
        Err(_) => match tag(input, pos, "false") {
            Ok((np, _)) => Ok((np, Value::Boolean(false))),
            Err(e) => Err(e),
        },
    }
}

/// A bare identifier is an enum value.
pub(crate) fn value_enum(input: &str, pos: usize) -> (r: Result<(usize, Value), ParsingError>)
    requires
        pos <= input@.len(),
    ensures
        r is Ok <==> pos < input@.len() && is_name_start(input@[pos as int]),
        r matches Ok((np, v)) ==> pos < np <= input@.len() && np == pos + name_run(
            input@,
            pos as int,
        ) && (v matches Value::Enum(nm) && nm@ == input@.subrange(pos as int, np as int)),
        r matches Err(e) ==> e.offset == pos,
{
    match name(input, pos) {
        Ok((np, nm)) => Ok((np, Value::Enum(nm))),
        Err(e) => Err(e),
    }
}

/// A quoted string literal value.
pub(crate) fn value_string(input: &str, pos: usize) -> (r: Result<(usize, Value), ParsingError>)
    requires
        pos <= input@.len(),
    ensures
        r is Ok <==> string_at(input@, pos as int),
        r matches Ok((np, v)) ==> pos < np <= input@.len() && np == pos + 2 + string_run(
            input@,
            pos + 1,
        ) && (v matches Value::String(st) && st@ == input@.subrange(
            pos + 1,
            pos + 1 + string_run(input@, pos + 1),
        )),
        r matches Err(e) ==> e.offset <= input@.len(),
{
    match string(input, pos) {
        Ok((np, st)) => Ok((np, Value::String(st))),
        Err(e) => Err(e),
    }
}

/// One alternative of the value grammar that cannot recurse: `null`,
/// boolean, numeric, enum or string, tried in the declared order.  An
/// integer literal too large for 64 signed bits aborts with its own
/// diagnostic rather than falling through to a later alternative.
fn value_scalar(input: &str, pos: usize) -> (r: Result<(usize, Value), ParsingError>)
    requires
        pos <= input@.len(),
    ensures
        r is Ok <==> value_end(input@, pos as int) >= 0,
        r matches Ok((np, v)) ==> np == value_end(input@, pos as int) && value_is(
            input@,
            pos as int,
            v,
        ),
        r matches Ok((np, v)) ==> pos < np <= input@.len() && value_wf(v) && !(v is Object) && !(v
            is List),
        r matches Ok((np, v)) ==> numeric_value_exact(input@, pos as int, np as int, v),
        r matches Err(e) ==> e.offset <= input@.len(),
{
    proof {
        reveal_strlit("null");
        reveal_strlit("true");
        reveal_strlit("false");
    }
    match value_null(input, pos) {
        Ok(r) => {
            return Ok(r);
        },
        Err(_) => {},
    }
    match value_boolean(input, pos) {
        Ok(r) => {
            return Ok(r);
        },
        Err(_) => {},
    }
    match value_numeric(input, pos) {
        Ok(r) => {
            return Ok(r);
        },
        Err(e) => {
            if e.kind == ErrorKind::IntOverflow {
                return Err(e);
            }
        },
    }
    match value_enum(input, pos) {
        Ok(r) => {
            return Ok(r);
        },
        Err(_) => {},
    }
    match value_string(input, pos) {
        Ok(r) => {
            return Ok(r);
        },
        Err(_) => Err(ParsingError { offset: pos, kind: ErrorKind::Value }),
    }
}

/// Inserts a pair into an object, keys unique with last write winning: a
/// pair whose key is already present replaces that key's value in place.
#[verifier::loop_isolation(false)]
fn object_insert(pairs: &mut Vec<(String, Value)>, key: String, val: Value)
    requires
        object_keys_unique(old(pairs)@),
        forall|i: int| 0 <= i < old(pairs)@.len() ==> value_wf((#[trigger] old(pairs)@[i]).1),
        value_wf(val),
    ensures
        object_keys_unique(final(pairs)@),
        forall|i: int| 0 <= i < final(pairs)@.len() ==> value_wf((#[trigger] final(pairs)@[i]).1),
        exists|j: int|
            0 <= j < final(pairs)@.len() && (#[trigger] final(pairs)@[j]).0@ == key@
                && final(pairs)@[j].1 == val,
{
    let ghost before = pairs@;
    let ghost gk = key@;
    let mut j: usize = 0;
    while j < pairs.len()
        invariant
            0 <= j <= pairs@.len(),
            pairs@ == before,
            forall|x: int| 0 <= x < j ==> (#[trigger] pairs@[x]).0@ != gk,
            gk == key@,
        decreases pairs@.len() - j,
    {
        if pairs[j].0 == key {
            let ghost gpair = (key, val);
            let _ = pairs.remove(j);
            pairs.insert(j, (key, val));
            proof {
                assert(pairs@ =~= before.update(j as int, gpair));
                assert(before[j as int].0@ == gk);
                assert forall|x: int| 0 <= x < before.len() && x != j implies (#[trigger] before[x]).0@
                    != gk by {
                    if x < j {
                        assert(before[x].0@ != before[j as int].0@);
                    } else {
                        assert(before[j as int].0@ != before[x].0@);
                    }
                }
                assert((pairs@[j as int]).0@ == gk && pairs@[j as int].1 == gpair.1);
            }
            return ;
        }
        j = j + 1;
    }
    let ghost glen = pairs@.len() as int;
    pairs.push((key, val));
    proof {
        assert((pairs@[glen]).0@ == gk);
        assert(forall|x: int| 0 <= x < glen ==> pairs@[x] == before[x]);
    }
}

/// The offset right after the `name : value` pair at `i`, or -1.
pub open spec fn object_pair_end(s: Seq<char>, i: int) -> int {
    if 0 <= i < s.len() && is_name_start(s[i]) {
        let p1 = i + name_run(s, i);
        let p2 = p1 + ws_run(s, p1);
        if 0 <= p2 < s.len() && s[p2] == ':' {
            let p4 = p2 + 1 + ws_run(s, p2 + 1);
            if value_end(s, p4) >= 0 {
                value_end(s, p4)
            } else {
                -1
            }
        } else {
            -1
        }
    } else {
        -1
    }
}

/// One `name : value` pair of an object literal.
fn object_pair(input: &str, pos: usize) -> (r: Result<(usize, (String, Value)), ParsingError>)
    requires
        pos <= input@.len(),
    ensures
        r is Ok <==> object_pair_end(input@, pos as int) >= 0,
        r matches Ok((np, kv)) ==> ({
            let p1 = pos + name_run(input@, pos as int);
            let p2 = p1 + ws_run(input@, p1);
            &&& np == object_pair_end(input@, pos as int)
            &&& kv.0@ == input@.subrange(pos as int, p1)
            &&& value_is(input@, p2 + 1 + ws_run(input@, p2 + 1), kv.1)
        }),
        r matches Ok((np, kv)) ==> pos < np <= input@.len() && value_wf(kv.1),
        r is Ok ==> pos < input@.len() && is_name_start(input@[pos as int]),
        r matches Err(e) ==> e.offset <= input@.len(),
    decreases input@.len() - pos, 0int,
{
    let (p1, key) = match name(input, pos) {
        Ok(x) => x,
        Err(e) => {
            return Err(e);
        },
    };
    let p2 = ignore_token0(input, p1);
    let (p3, _) = match expect_char(input, p2, ':') {
        Ok(x) => x,
        Err(e) => {
            return Err(e);
        },
    };
    let p4 = ignore_token0(input, p3);
    match value(input, p4) {
        Ok((np, v)) => Ok((np, (key, v))),
        Err(e) => Err(e),
    }
}

/// An object literal: one or more `name : value` pairs separated by
/// required trivia; duplicate keys silently overwrite, last write wins.
/// The enum alternative precedes this one and takes any leading name, so
/// the value grammar never reaches it: the contract of [`value`] proves
/// that no parsed value is an object.
fn value_object(input: &str, pos: usize) -> (r: Result<(usize, Value), ParsingError>)
    requires
        pos <= input@.len(),
    ensures
        r is Ok <==> object_pair_end(input@, pos as int) >= 0,
        r matches Ok((np, v)) ==> pos < np <= input@.len() && value_wf(v) && v is Object,
        r is Ok ==> pos < input@.len() && is_name_start(input@[pos as int]),
        r matches Err(e) ==> e.offset <= input@.len(),
    decreases input@.len() - pos, 1int,
{
    let mut pairs: Vec<(String, Value)> = Vec::new();
    let (first_np, first_kv) = match object_pair(input, pos) {
        Ok(x) => x,
        Err(e) => {
            return Err(e);
        },
    };
    object_insert(&mut pairs, first_kv.0, first_kv.1);
    let mut p = first_np;
    loop
        invariant
            pos < p <= input@.len(),
            object_keys_unique(pairs@),
            forall|i: int| 0 <= i < pairs@.len() ==> value_wf((#[trigger] pairs@[i]).1),
        decreases input@.len() - p,
    {
        let q = match ignore_token1(input, p) {
            Ok((q, _)) => q,
            Err(_) => {
                break ;
            },
        };
        match object_pair(input, q) {
            Ok((p2, kv)) => {
                object_insert(&mut pairs, kv.0, kv.1);
                p = p2;
            },
            Err(_) => {
                break ;
            },
        }
    }
    Ok((p, Value::Object(pairs)))
}

/// A list literal: one or more values separated by required trivia.  A list
/// element is itself a non-recursive value alternative; a nested bare list
/// has no textual delimiter of its own and cannot be distinguished.  Every
/// element is also a whole value under an earlier alternative, so the value
/// grammar never reaches this rule: the contract of [`value`] proves that
/// no parsed value is a list.
fn value_list(input: &str, pos: usize) -> (r: Result<(usize, Value), ParsingError>)
    requires
        pos <= input@.len(),
    ensures
        r is Ok <==> value_end(input@, pos as int) >= 0,
        r matches Ok((np, v)) ==> pos < np <= input@.len() && value_wf(v) && v is List,
        r matches Err(e) ==> e.offset <= input@.len(),
    decreases input@.len() - pos, 2int,
{
    let mut items: Vec<Value> = Vec::new();
    let (first_np, first_v) = match value_scalar(input, pos) {
        Ok(x) => x,
        Err(e) => {
            return Err(e);
        },
    };
    items.push(first_v);
    let mut p = first_np;
    loop
        invariant
            pos < p <= input@.len(),
            forall|i: int| 0 <= i < items@.len() ==> value_wf(#[trigger] items@[i]),
        decreases input@.len() - p,
    {
        let q = match ignore_token1(input, p) {
            Ok((q, _)) => q,
            Err(_) => {
                break ;
            },
        };
        match value_scalar(input, q) {
            Ok((p2, v)) => {
                items.push(v);
                p = p2;
            },
            Err(_) => {
                break ;
            },
        }
    }
    Ok((p, Value::List(items)))
}

/// A literal value: the ordered alternatives, first match winning.  When no
/// alternative matches, the failure is a generic diagnostic at the starting
/// offset, except that an integer literal too large for 64 signed bits
/// keeps its own diagnostic.
pub(crate) fn value(input: &str, pos: usize) -> (r: Result<(usize, Value), ParsingError>)
    requires
        pos <= input@.len(),
    ensures
        r is Ok <==> value_end(input@, pos as int) >= 0,
        r matches Ok((np, v)) ==> np == value_end(input@, pos as int) && value_is(
            input@,
            pos as int,
            v,
        ),
        r matches Ok((np, v)) ==> pos < np <= input@.len() && value_wf(v),
        r matches Ok((np, v)) ==> numeric_value_exact(input@, pos as int, np as int, v),
        r matches Err(e) ==> e.offset <= input@.len(),
    decreases input@.len() - pos, 3int,
{
    let ghost s = input@;
    let ghost gi = pos as int;
    match value_scalar(input, pos) {
        Ok(r) => {
            return Ok(r);
        },
        Err(e) => {
            if e.kind == ErrorKind::IntOverflow {
                return Err(e);
            }
        },
    }
    match value_object(input, pos) {
        Ok(r) => {
            // unreachable: an object starts with a name, which the enum
            // alternative of the scalar pass already takes
            proof {
                assert(num_sign_len(s, gi) == 0);
                assert(num_int_len(s, gi) == 0);
                crate::lex::lemma_run_bounds(s, gi, |c: char| crate::lex::is_name_char(c));
                assert(value_end(s, gi) >= 0);
            }
            return Ok(r);
        },
        Err(_) => {},
    }
    match value_list(input, pos) {
        Ok(r) => Ok(r),
        Err(_) => Err(ParsingError { offset: pos, kind: ErrorKind::Value }),
    }
}

} // verus!
