//! The abstract syntax tree.
//!
//! All nodes are immutable once constructed; every semantically meaningful
//! grammar production returns a [`Positioned`] node recording the character
//! offsets of the production's start and end.  The `*_wf` spec functions
//! state the span discipline of the whole tree: a node's start never exceeds
//! its end, and every child node's span lies within its parent's span.

use vstd::prelude::*;
use crate::lex::is_ws;
use crate::lex::trivia_run;
use crate::lex::ws_run;
use crate::numeric::is_float_literal;

verus! {

/// A parsed value together with the character offsets of its first character
/// and of the position one past its last character.
#[derive(Debug, PartialEq, Eq)]
pub struct Positioned<T> {
    pub start: usize,
    pub end: usize,
    pub value: T,
}

/// A type reference.  A non-null type is a trailing `!` applied once to a
/// named or list type, so by construction `NonNull` never wraps `NonNull`.
#[derive(Debug, PartialEq, Eq)]
pub enum Type {
    NonNull(Box<Type>),
    List(Box<Type>),
    Named(String),
}

/// A literal value.
///
/// A float literal is kept as its exact source text; the engine itself never
/// converts it to a machine float.  Object entries keep first-insertion
/// order, with unique keys: a later pair with an already-present key
/// replaces the earlier value.
#[derive(Debug, PartialEq, Eq)]
pub enum Value {
    Null,
    Boolean(bool),
    Int(i64),
    Float(String),
    Enum(String),
    String(String),
    Object(Vec<(String, Value)>),
    List(Vec<Value>),
}

/// The parse result of the combined grammar: every definition kind, in
/// source order.
#[derive(Debug, PartialEq, Eq)]
pub struct Document {
    pub definition_list: Vec<Positioned<DocumentDefinition>>,
}

#[derive(Debug, PartialEq, Eq)]
pub enum DocumentDefinition {
    Operation(Positioned<OperationDefinition>),
    Fragment(Positioned<FragmentDefinition>),
    Schema(Positioned<SchemaDefinition>),
    Type(Positioned<TypeDefinition>),
    Directive(Positioned<DirectiveDefinition>),
}

/// The parse result of the type-system grammar.
#[derive(Debug, PartialEq, Eq)]
pub struct TypeSystemDocument {
    pub definition_list: Vec<Positioned<TypeSystemDefinition>>,
}

#[derive(Debug, PartialEq, Eq)]
pub enum TypeSystemDefinition {
    Schema(Positioned<SchemaDefinition>),
    Type(Positioned<TypeDefinition>),
    Directive(Positioned<DirectiveDefinition>),
}

/// The parse result of the executable grammar.
#[derive(Debug, PartialEq, Eq)]
pub struct ExecutableDocument {
    pub definition_list: Vec<Positioned<ExecutableDefinition>>,
}

#[derive(Debug, PartialEq, Eq)]
pub enum ExecutableDefinition {
    Operation(Positioned<OperationDefinition>),
    Fragment(Positioned<FragmentDefinition>),
}

#[derive(Debug, PartialEq, Eq)]
pub struct OperationDefinition {
    pub ty: OperationType,
    pub name: Option<Positioned<String>>,
    pub variable_list: Vec<Positioned<VariableDefinition>>,
    pub selection_list: Vec<Positioned<Selection>>,
    pub directive_list: Vec<Positioned<Directive>>,
}

#[derive(Debug, PartialEq, Eq)]
pub struct FragmentDefinition {
    pub name: Positioned<String>,
    pub on: Positioned<String>,
    pub selection_list: Vec<Positioned<Selection>>,
    pub directive_list: Vec<Positioned<Directive>>,
}

#[derive(Debug, PartialEq, Eq)]
pub struct SchemaDefinition {
    pub is_extend: bool,
    pub description: Option<Positioned<String>>,
    pub directive_list: Vec<Positioned<Directive>>,
    pub field_list: Vec<OperationField>,
}

#[derive(Debug, PartialEq, Eq)]
pub struct VariableDefinition {
    pub name: Positioned<String>,
    pub ty: Positioned<Type>,
    pub default_value: Option<Positioned<Value>>,
}

/// One `operationType: Name` entry of a schema body.
#[derive(Debug, PartialEq, Eq)]
pub struct OperationField {
    pub ty: OperationType,
    pub name: Positioned<String>,
}

#[derive(Clone, Copy, Debug, PartialEq, Eq, Structural)]
pub enum OperationType {
    Query,
    Mutation,
    Subscription,
}

#[derive(Debug, PartialEq, Eq)]
pub enum TypeDefinition {
    Scalar(Positioned<ScalarType>),
    Object(Positioned<ObjectType>),
    Interface(Positioned<InterfaceType>),
    Union(Positioned<UnionType>),
    Enum(Positioned<EnumType>),
    InputObject(Positioned<InputObjectType>),
}

#[derive(Debug, PartialEq, Eq)]
pub struct ScalarType {
    pub is_extend: bool,
    pub description: Option<Positioned<String>>,
    pub name: Positioned<String>,
    pub directive_list: Vec<Positioned<Directive>>,
}

#[derive(Debug, PartialEq, Eq)]
pub struct ObjectType {
    pub is_extend: bool,
    pub description: Option<Positioned<String>>,
    pub interface_list: Vec<Positioned<String>>,
    pub name: Positioned<String>,
    pub field_list: Vec<Positioned<FieldDefinition>>,
    pub directive_list: Vec<Positioned<Directive>>,
}

#[derive(Debug, PartialEq, Eq)]
pub struct InterfaceType {
    pub is_extend: bool,
    pub description: Option<Positioned<String>>,
    pub name: Positioned<String>,
    pub field_list: Vec<Positioned<FieldDefinition>>,
    pub directive_list: Vec<Positioned<Directive>>,
}

#[derive(Debug, PartialEq, Eq)]
pub struct UnionType {
    pub is_extend: bool,
    pub description: Option<Positioned<String>>,
    pub name: Positioned<String>,
    pub member_list: Vec<Positioned<String>>,
    pub directive_list: Vec<Positioned<Directive>>,
}

#[derive(Debug, PartialEq, Eq)]
pub struct EnumType {
    pub is_extend: bool,
    pub description: Option<Positioned<String>>,
    pub name: Positioned<String>,
    pub member_list: Vec<Positioned<EnumMember>>,
    pub directive_list: Vec<Positioned<Directive>>,
}

#[derive(Debug, PartialEq, Eq)]
pub struct InputObjectType {
    pub is_extend: bool,
    pub description: Option<Positioned<String>>,
    pub name: Positioned<String>,
    pub field_list: Vec<Positioned<FieldDefinition>>,
    pub directive_list: Vec<Positioned<Directive>>,
}

#[derive(Debug, PartialEq, Eq)]
pub struct DirectiveDefinition {
    pub description: Option<Positioned<String>>,
    pub name: Positioned<String>,
    pub argument_list: Vec<Positioned<FieldArgument>>,
    pub location_list: Vec<Positioned<DirectiveLocation>>,
}

#[derive(Debug, PartialEq, Eq)]
pub enum Selection {
    Field(Field),
    FragmentSpread(FragmentSpread),
    InlineFragment(InlineFragment),
}

#[derive(Debug, PartialEq, Eq)]
pub struct Field {
    pub name: Positioned<String>,
    pub alias: Option<Positioned<String>>,
    pub argument_list: Vec<Positioned<FieldArgument>>,
    pub selection_list: Vec<Positioned<Selection>>,
    pub directive_list: Vec<Positioned<Directive>>,
}

#[derive(Debug, PartialEq, Eq)]
pub struct FragmentSpread {
    pub name: Positioned<String>,
    pub directive_list: Vec<Positioned<Directive>>,
}

#[derive(Debug, PartialEq, Eq)]
pub struct InlineFragment {
    pub on: Option<Positioned<String>>,
    pub selection_list: Vec<Positioned<Selection>>,
    pub directive_list: Vec<Positioned<Directive>>,
}

#[derive(Debug, PartialEq, Eq)]
pub struct FieldDefinition {
    pub description: Option<Positioned<String>>,
    pub name: Positioned<String>,
    pub argument_list: Vec<Positioned<FieldArgument>>,
    pub ty: Positioned<Type>,
    pub directive_list: Vec<Positioned<Directive>>,
}

#[derive(Debug, PartialEq, Eq)]
pub struct FieldArgument {
    pub description: Option<Positioned<String>>,
    pub name: Positioned<String>,
    pub ty: Positioned<Type>,
    pub default_value: Option<Positioned<Value>>,
    pub directive_list: Vec<Positioned<Directive>>,
}

#[derive(Debug, PartialEq, Eq)]
pub struct EnumMember {
    pub description: Option<Positioned<String>>,
    pub name: Positioned<String>,
    pub directive_list: Vec<Positioned<Directive>>,
}

#[derive(Clone, Copy, Debug, PartialEq, Eq, Structural)]
pub enum DirectiveLocation {
    Executable(ExecutableDirectiveLocation),
    TypeSystem(TypeSystemDirectiveLocation),
}

#[derive(Clone, Copy, Debug, PartialEq, Eq, Structural)]
pub enum ExecutableDirectiveLocation {
    Query,
    Mutation,
    Subscription,
    Field,
    FragmentDefinition,
    FragmentSpread,
    InlineFragment,
}

#[derive(Clone, Copy, Debug, PartialEq, Eq, Structural)]
pub enum TypeSystemDirectiveLocation {
    Schema,
    Scalar,
    Object,
    FieldDefinition,
    ArgumentDefinition,
    Interface,
    Union,
    Enum,
    EnumValue,
    InputObject,
    InputFieldDefinition,
}

#[derive(Debug, PartialEq, Eq)]
pub struct Directive {
    pub name: Positioned<String>,
    pub argument_list: Vec<Positioned<FieldArgument>>,
}

/// The items of a repetition, parsed one after another from offset `i` to
/// offset `j`: whenever the stepper accepts the current offset, the next
/// item starts where the stepper places it, satisfies the item relation,
/// and the chain continues right after it; an empty chain ends where it
/// began.
pub open spec fn chain<T>(
    s: Seq<char>,
    i: int,
    j: int,
    items: Seq<Positioned<T>>,
    can_step: spec_fn(Seq<char>, int) -> bool,
    step: spec_fn(Seq<char>, int) -> int,
    item_ok: spec_fn(Seq<char>, Positioned<T>) -> bool,
    item_end: spec_fn(Seq<char>, int) -> int,
) -> bool
    decreases items.len(),
{
    if items.len() == 0 {
        j == i
    } else {
        &&& can_step(s, i)
        &&& items[0].start == step(s, i)
        &&& item_ok(s, items[0])
        &&& chain(
            s,
            item_end(s, step(s, i)),
            j,
            items.subrange(1, items.len() as int),
            can_step,
            step,
            item_ok,
            item_end,
        )
    }
}

/// Extends a chain by one more item at its end.
pub proof fn lemma_chain_snoc<T>(
    s: Seq<char>,
    i: int,
    j: int,
    items: Seq<Positioned<T>>,
    x: Positioned<T>,
    can_step: spec_fn(Seq<char>, int) -> bool,
    step: spec_fn(Seq<char>, int) -> int,
    item_ok: spec_fn(Seq<char>, Positioned<T>) -> bool,
    item_end: spec_fn(Seq<char>, int) -> int,
)
    requires
        chain(s, i, j, items, can_step, step, item_ok, item_end),
        can_step(s, j),
        x.start == step(s, j),
        item_ok(s, x),
    ensures
        chain(s, i, item_end(s, step(s, j)), items.push(x), can_step, step, item_ok, item_end),
    decreases items.len(),
{
    reveal_with_fuel(chain, 3);
    if items.len() == 0 {
        assert(items.push(x).subrange(1, 1) =~= Seq::<Positioned<T>>::empty());
    } else {
        lemma_chain_snoc(
            s,
            item_end(s, step(s, i)),
            j,
            items.subrange(1, items.len() as int),
            x,
            can_step,
            step,
            item_ok,
            item_end,
        );
        assert(items.push(x).subrange(1, items.len() as int + 1) =~= items.subrange(
            1,
            items.len() as int,
        ).push(x));
    }
}

/// The items standing one after another from `i`, each past ignorable
/// characters, with nothing but the items between `i` and the chain's end:
/// complete as long as items keep standing there.
pub open spec fn spaced_are<T>(
    s: Seq<char>,
    i: int,
    items: Seq<Positioned<T>>,
    item_end: spec_fn(Seq<char>, int) -> int,
    item_is: spec_fn(Seq<char>, Positioned<T>) -> bool,
) -> bool
    decreases items.len(),
{
    let q = i + ws_run(s, i);
    if item_end(s, q) >= 0 {
        &&& items.len() > 0
        &&& items[0].start == q
        &&& item_is(s, items[0])
        &&& i <= q && q < item_end(s, q) <= s.len()
        &&& spaced_are(s, item_end(s, q), items.subrange(1, items.len() as int), item_end, item_is)
    } else {
        items.len() == 0
    }
}

/// The offset right after such an item run (the offset itself when no item
/// stands there).
pub open spec fn spaced_list_end(s: Seq<char>, i: int, item_end: spec_fn(Seq<char>, int) -> int) -> int
    decreases s.len() - i,
{
    let q = i + ws_run(s, i);
    if i <= q <= s.len() && item_end(s, q) >= 0 && i < item_end(s, q) <= s.len() {
        spaced_list_end(s, item_end(s, q), item_end)
    } else {
        i
    }
}

/// A prefix of such an item run, ending at `j`.
pub open spec fn spaced_chain<T>(
    s: Seq<char>,
    i: int,
    j: int,
    items: Seq<Positioned<T>>,
    item_end: spec_fn(Seq<char>, int) -> int,
    item_is: spec_fn(Seq<char>, Positioned<T>) -> bool,
) -> bool
    decreases items.len(),
{
    if items.len() == 0 {
        j == i
    } else {
        let q = i + ws_run(s, i);
        &&& item_end(s, q) >= 0
        &&& items[0].start == q
        &&& item_is(s, items[0])
        &&& i <= q && q < item_end(s, q) <= s.len()
        &&& spaced_chain(s, item_end(s, q), j, items.subrange(1, items.len() as int), item_end, item_is)
    }
}

pub proof fn lemma_spaced_snoc<T>(
    s: Seq<char>,
    i: int,
    j: int,
    items: Seq<Positioned<T>>,
    x: Positioned<T>,
    item_end: spec_fn(Seq<char>, int) -> int,
    item_is: spec_fn(Seq<char>, Positioned<T>) -> bool,
)
    requires
        spaced_chain(s, i, j, items, item_end, item_is),
        item_end(s, j + ws_run(s, j)) >= 0,
        x.start == j + ws_run(s, j),
        item_is(s, x),
        j <= j + ws_run(s, j),
        j + ws_run(s, j) < item_end(s, j + ws_run(s, j)) <= s.len(),
    ensures
        spaced_chain(s, i, item_end(s, j + ws_run(s, j)), items.push(x), item_end, item_is),
    decreases items.len(),
{
    reveal_with_fuel(spaced_chain, 3);
    if items.len() == 0 {
        assert(items.push(x).subrange(1, 1) =~= Seq::<Positioned<T>>::empty());
    } else {
        lemma_spaced_snoc(
            s,
            item_end(s, i + ws_run(s, i)),
            j,
            items.subrange(1, items.len() as int),
            x,
            item_end,
            item_is,
        );
        assert(items.push(x).subrange(1, items.len() as int + 1) =~= items.subrange(
            1,
            items.len() as int,
        ).push(x));
    }
}

/// A finished chain with no further item standing is the whole run, and
/// ends where the run ends.
pub proof fn lemma_spaced_complete<T>(
    s: Seq<char>,
    i: int,
    j: int,
    items: Seq<Positioned<T>>,
    item_end: spec_fn(Seq<char>, int) -> int,
    item_is: spec_fn(Seq<char>, Positioned<T>) -> bool,
)
    requires
        spaced_chain(s, i, j, items, item_end, item_is),
        item_end(s, j + ws_run(s, j)) < 0,
        0 <= i <= s.len(),
    ensures
        spaced_are(s, i, items, item_end, item_is),
        j == spaced_list_end(s, i, item_end),
    decreases items.len(),
{
    crate::lex::lemma_run_bounds(s, i, |c: char| crate::lex::is_ws(c));
    if items.len() == 0 {
    } else {
        lemma_spaced_complete(
            s,
            item_end(s, i + ws_run(s, i)),
            j,
            items.subrange(1, items.len() as int),
            item_end,
            item_is,
        );
    }
}

/// The items standing one after another from the first one at `i`, later
/// ones each after a required separating token: complete as long as a
/// separator and a further item keep standing.
pub open spec fn sep1_are<T>(
    s: Seq<char>,
    i: int,
    items: Seq<T>,
    item_end: spec_fn(Seq<char>, int) -> int,
    item_is: spec_fn(Seq<char>, int, T) -> bool,
) -> bool
    decreases items.len(),
{
    if item_end(s, i) >= 0 {
        &&& items.len() > 0
        &&& item_is(s, i, items[0])
        &&& i < item_end(s, i) <= s.len()
        &&& {
            let e = item_end(s, i);
            let q = e + trivia_run(s, e);
            if e < s.len() && (is_ws(s[e]) || s[e] == '#') && e < q <= s.len() && item_end(s, q)
                >= 0 {
                sep1_are(s, q, items.subrange(1, items.len() as int), item_end, item_is)
            } else {
                items.len() == 1
            }
        }
    } else {
        items.len() == 0
    }
}

/// The offset right after such a separated run (the offset itself when no
/// item stands at `i`).
pub open spec fn sep1_list_end(s: Seq<char>, i: int, item_end: spec_fn(Seq<char>, int) -> int) -> int
    decreases s.len() - i,
{
    let e = item_end(s, i);
    if e >= 0 {
        if i < e <= s.len() {
            let q = e + trivia_run(s, e);
            if e < s.len() && (is_ws(s[e]) || s[e] == '#') && e < q <= s.len() && item_end(s, q)
                >= 0 {
                sep1_list_end(s, q, item_end)
            } else {
                e
            }
        } else {
            -1
        }
    } else {
        i
    }
}

/// A later item of such a run follows a separator at `i`.
pub open spec fn sep1_can(s: Seq<char>, i: int, item_end: spec_fn(Seq<char>, int) -> int) -> bool {
    i < s.len() && (is_ws(s[i]) || s[i] == '#') && i < i + trivia_run(s, i) <= s.len() && item_end(
        s,
        i + trivia_run(s, i),
    ) >= 0
}

/// A prefix of the later items of such a run, ending at `j`.
pub open spec fn sep1_chain<T>(
    s: Seq<char>,
    i: int,
    j: int,
    items: Seq<T>,
    item_end: spec_fn(Seq<char>, int) -> int,
    item_is: spec_fn(Seq<char>, int, T) -> bool,
) -> bool
    decreases items.len(),
{
    if items.len() == 0 {
        j == i
    } else {
        let q = i + trivia_run(s, i);
        &&& sep1_can(s, i, item_end)
        &&& item_is(s, q, items[0])
        &&& q < item_end(s, q) <= s.len()
        &&& sep1_chain(s, item_end(s, q), j, items.subrange(1, items.len() as int), item_end, item_is)
    }
}

pub proof fn lemma_sep1_snoc<T>(
    s: Seq<char>,
    i: int,
    j: int,
    items: Seq<T>,
    x: T,
    item_end: spec_fn(Seq<char>, int) -> int,
    item_is: spec_fn(Seq<char>, int, T) -> bool,
)
    requires
        sep1_chain(s, i, j, items, item_end, item_is),
        sep1_can(s, j, item_end),
        item_is(s, j + trivia_run(s, j), x),
        j + trivia_run(s, j) < item_end(s, j + trivia_run(s, j)) <= s.len(),
    ensures
        sep1_chain(s, i, item_end(s, j + trivia_run(s, j)), items.push(x), item_end, item_is),
    decreases items.len(),
{
    reveal_with_fuel(sep1_chain, 3);
    if items.len() == 0 {
        assert(items.push(x).subrange(1, 1) =~= Seq::<T>::empty());
    } else {
        lemma_sep1_snoc(
            s,
            item_end(s, i + trivia_run(s, i)),
            j,
            items.subrange(1, items.len() as int),
            x,
            item_end,
            item_is,
        );
        assert(items.push(x).subrange(1, items.len() as int + 1) =~= items.subrange(
            1,
            items.len() as int,
        ).push(x));
    }
}

/// A first item followed by a finished chain is the whole separated run,
/// and ends where the run ends.
pub proof fn lemma_sep1_complete<T>(
    s: Seq<char>,
    i: int,
    j: int,
    items: Seq<T>,
    item_end: spec_fn(Seq<char>, int) -> int,
    item_is: spec_fn(Seq<char>, int, T) -> bool,
)
    requires
        items.len() > 0,
        item_is(s, i, items[0]),
        item_end(s, i) >= 0,
        i < item_end(s, i) <= s.len(),
        sep1_chain(s, item_end(s, i), j, items.subrange(1, items.len() as int), item_end, item_is),
        !sep1_can(s, j, item_end),
    ensures
        sep1_are(s, i, items, item_end, item_is),
        j == sep1_list_end(s, i, item_end),
    decreases items.len(),
{
    let e = item_end(s, i);
    let rest = items.subrange(1, items.len() as int);
    if rest.len() == 0 {
    } else {
        assert(rest.subrange(1, rest.len() as int) =~= items.subrange(2, items.len() as int));
        lemma_sep1_complete(s, e + trivia_run(s, e), j, rest, item_end, item_is);
    }
}

/// The node's span is ordered and lies within `[lo, hi]`.
pub open spec fn span_ok<T>(p: Positioned<T>, lo: int, hi: int) -> bool {
    lo <= p.start && p.start <= p.end && p.end <= hi
}

pub open spec fn opt_span_ok<T>(o: Option<Positioned<T>>, lo: int, hi: int) -> bool {
    match o {
        Option::Some(p) => span_ok(p, lo, hi),
        Option::None => true,
    }
}

pub open spec fn spans_ok<T>(s: Seq<Positioned<T>>, lo: int, hi: int) -> bool {
    forall|i: int| 0 <= i < s.len() ==> span_ok(#[trigger] s[i], lo, hi)
}

/// A non-null type is never applied to another non-null type.
pub open spec fn type_wf(t: Type) -> bool
    decreases t,
{
    match t {
        Type::NonNull(inner) => !(*inner is NonNull) && type_wf(*inner),
        Type::List(inner) => type_wf(*inner),
        Type::Named(_) => true,
    }
}

/// Every float literal in the value is the exact text of a well-formed
/// numeric literal of float shape, and object keys are unique.
pub open spec fn value_wf(v: Value) -> bool
    decreases v,
{
    match v {
        Value::Float(t) => is_float_literal(t@),
        Value::Object(pairs) => object_keys_unique(pairs@) && forall|i: int|
            0 <= i < pairs@.len() ==> value_wf((#[trigger] pairs@[i]).1),
        Value::List(items) => forall|i: int| 0 <= i < items@.len() ==> value_wf(#[trigger] items@[i]),
        _ => true,
    }
}

pub open spec fn object_keys_unique(pairs: Seq<(String, Value)>) -> bool {
    forall|i: int, j: int| 0 <= i < j < pairs.len() ==> (#[trigger] pairs[i]).0@ != (#[trigger] pairs[j]).0@
}

pub open spec fn ptype_wf(p: Positioned<Type>, lo: int, hi: int) -> bool {
    span_ok(p, lo, hi) && type_wf(p.value)
}

pub open spec fn pvalue_wf(p: Positioned<Value>, lo: int, hi: int) -> bool {
    span_ok(p, lo, hi) && value_wf(p.value)
}

pub open spec fn opt_pvalue_wf(o: Option<Positioned<Value>>, lo: int, hi: int) -> bool {
    match o {
        Option::Some(p) => pvalue_wf(p, lo, hi),
        Option::None => true,
    }
}

pub open spec fn farg_wf(a: FieldArgument, lo: int, hi: int) -> bool
    decreases a,
{
    &&& opt_span_ok(a.description, lo, hi)
    &&& span_ok(a.name, lo, hi)
    &&& ptype_wf(a.ty, lo, hi)
    &&& opt_pvalue_wf(a.default_value, lo, hi)
    &&& directives_wf(a.directive_list@, lo, hi)
}

pub open spec fn fargs_wf(s: Seq<Positioned<FieldArgument>>, lo: int, hi: int) -> bool
    decreases s,
{
    forall|i: int| 0 <= i < s.len() ==> span_ok(#[trigger] s[i], lo, hi) && farg_wf(
        s[i].value,
        s[i].start as int,
        s[i].end as int,
    )
}

pub open spec fn directive_wf(d: Directive, lo: int, hi: int) -> bool
    decreases d,
{
    span_ok(d.name, lo, hi) && fargs_wf(d.argument_list@, lo, hi)
}

pub open spec fn directives_wf(s: Seq<Positioned<Directive>>, lo: int, hi: int) -> bool
    decreases s,
{
    forall|i: int| 0 <= i < s.len() ==> span_ok(#[trigger] s[i], lo, hi) && directive_wf(
        s[i].value,
        s[i].start as int,
        s[i].end as int,
    )
}

pub open spec fn vardef_wf(v: VariableDefinition, lo: int, hi: int) -> bool {
    &&& span_ok(v.name, lo, hi)
    &&& ptype_wf(v.ty, lo, hi)
    &&& opt_pvalue_wf(v.default_value, lo, hi)
}

pub open spec fn vardefs_wf(s: Seq<Positioned<VariableDefinition>>, lo: int, hi: int) -> bool {
    forall|i: int| 0 <= i < s.len() ==> span_ok(#[trigger] s[i], lo, hi) && vardef_wf(
        s[i].value,
        s[i].start as int,
        s[i].end as int,
    )
}

pub open spec fn opfields_wf(s: Seq<OperationField>, lo: int, hi: int) -> bool {
    forall|i: int| 0 <= i < s.len() ==> span_ok((#[trigger] s[i]).name, lo, hi)
}

pub open spec fn enum_member_wf(m: EnumMember, lo: int, hi: int) -> bool {
    &&& opt_span_ok(m.description, lo, hi)
    &&& span_ok(m.name, lo, hi)
    &&& directives_wf(m.directive_list@, lo, hi)
}

pub open spec fn enum_members_wf(s: Seq<Positioned<EnumMember>>, lo: int, hi: int) -> bool {
    forall|i: int| 0 <= i < s.len() ==> span_ok(#[trigger] s[i], lo, hi) && enum_member_wf(
        s[i].value,
        s[i].start as int,
        s[i].end as int,
    )
}

pub open spec fn field_def_wf(f: FieldDefinition, lo: int, hi: int) -> bool {
    &&& opt_span_ok(f.description, lo, hi)
    &&& span_ok(f.name, lo, hi)
    &&& fargs_wf(f.argument_list@, lo, hi)
    &&& ptype_wf(f.ty, lo, hi)
    &&& directives_wf(f.directive_list@, lo, hi)
}

pub open spec fn field_defs_wf(s: Seq<Positioned<FieldDefinition>>, lo: int, hi: int) -> bool {
    forall|i: int| 0 <= i < s.len() ==> span_ok(#[trigger] s[i], lo, hi) && field_def_wf(
        s[i].value,
        s[i].start as int,
        s[i].end as int,
    )
}

pub open spec fn scalar_wf(t: ScalarType, lo: int, hi: int) -> bool {
    &&& opt_span_ok(t.description, lo, hi)
    &&& span_ok(t.name, lo, hi)
    &&& directives_wf(t.directive_list@, lo, hi)
    &&& t.is_extend ==> t.description is None
}

pub open spec fn object_wf(t: ObjectType, lo: int, hi: int) -> bool {
    &&& opt_span_ok(t.description, lo, hi)
    &&& spans_ok(t.interface_list@, lo, hi)
    &&& span_ok(t.name, lo, hi)
    &&& field_defs_wf(t.field_list@, lo, hi)
    &&& directives_wf(t.directive_list@, lo, hi)
    &&& t.is_extend ==> t.description is None
}

pub open spec fn interface_wf(t: InterfaceType, lo: int, hi: int) -> bool {
    &&& opt_span_ok(t.description, lo, hi)
    &&& span_ok(t.name, lo, hi)
    &&& field_defs_wf(t.field_list@, lo, hi)
    &&& directives_wf(t.directive_list@, lo, hi)
    &&& t.is_extend ==> t.description is None
}

pub open spec fn union_wf(t: UnionType, lo: int, hi: int) -> bool {
    &&& opt_span_ok(t.description, lo, hi)
    &&& span_ok(t.name, lo, hi)
    &&& spans_ok(t.member_list@, lo, hi)
    &&& directives_wf(t.directive_list@, lo, hi)
    &&& t.is_extend ==> t.description is None
}

pub open spec fn enum_type_wf(t: EnumType, lo: int, hi: int) -> bool {
    &&& opt_span_ok(t.description, lo, hi)
    &&& span_ok(t.name, lo, hi)
    &&& enum_members_wf(t.member_list@, lo, hi)
    &&& directives_wf(t.directive_list@, lo, hi)
    &&& t.is_extend ==> t.description is None
}

pub open spec fn input_object_wf(t: InputObjectType, lo: int, hi: int) -> bool {
    &&& opt_span_ok(t.description, lo, hi)
    &&& span_ok(t.name, lo, hi)
    &&& field_defs_wf(t.field_list@, lo, hi)
    &&& directives_wf(t.directive_list@, lo, hi)
    &&& t.is_extend ==> t.description is None
}

pub open spec fn schema_wf(t: SchemaDefinition, lo: int, hi: int) -> bool {
    &&& opt_span_ok(t.description, lo, hi)
    &&& directives_wf(t.directive_list@, lo, hi)
    &&& opfields_wf(t.field_list@, lo, hi)
    &&& t.is_extend ==> t.description is None
}

pub open spec fn directive_def_wf(t: DirectiveDefinition, lo: int, hi: int) -> bool {
    &&& opt_span_ok(t.description, lo, hi)
    &&& span_ok(t.name, lo, hi)
    &&& fargs_wf(t.argument_list@, lo, hi)
    &&& spans_ok(t.location_list@, lo, hi)
}

pub open spec fn type_def_wf(t: TypeDefinition, lo: int, hi: int) -> bool {
    match t {
        TypeDefinition::Scalar(p) => span_ok(p, lo, hi) && scalar_wf(p.value, p.start as int, p.end as int),
        TypeDefinition::Object(p) => span_ok(p, lo, hi) && object_wf(p.value, p.start as int, p.end as int),
        TypeDefinition::Interface(p) => span_ok(p, lo, hi) && interface_wf(
            p.value,
            p.start as int,
            p.end as int,
        ),
        TypeDefinition::Union(p) => span_ok(p, lo, hi) && union_wf(p.value, p.start as int, p.end as int),
        TypeDefinition::Enum(p) => span_ok(p, lo, hi) && enum_type_wf(p.value, p.start as int, p.end as int),
        TypeDefinition::InputObject(p) => span_ok(p, lo, hi) && input_object_wf(
            p.value,
            p.start as int,
            p.end as int,
        ),
    }
}

pub open spec fn sel_field_wf(f: Field, lo: int, hi: int) -> bool
    decreases f,
{
    &&& span_ok(f.name, lo, hi)
    &&& opt_span_ok(f.alias, lo, hi)
    &&& fargs_wf(f.argument_list@, lo, hi)
    &&& selections_wf(f.selection_list@, lo, hi)
    &&& directives_wf(f.directive_list@, lo, hi)
}

pub open spec fn spread_wf(f: FragmentSpread, lo: int, hi: int) -> bool {
    span_ok(f.name, lo, hi) && directives_wf(f.directive_list@, lo, hi)
}

pub open spec fn inline_wf(f: InlineFragment, lo: int, hi: int) -> bool
    decreases f,
{
    &&& opt_span_ok(f.on, lo, hi)
    &&& selections_wf(f.selection_list@, lo, hi)
    &&& directives_wf(f.directive_list@, lo, hi)
}

pub open spec fn selection_wf(s: Selection, lo: int, hi: int) -> bool
    decreases s,
{
    match s {
        Selection::Field(f) => sel_field_wf(f, lo, hi),
        Selection::FragmentSpread(f) => spread_wf(f, lo, hi),
        Selection::InlineFragment(f) => inline_wf(f, lo, hi),
    }
}

pub open spec fn selections_wf(s: Seq<Positioned<Selection>>, lo: int, hi: int) -> bool
    decreases s,
{
    forall|i: int| 0 <= i < s.len() ==> span_ok(#[trigger] s[i], lo, hi) && selection_wf(
        s[i].value,
        s[i].start as int,
        s[i].end as int,
    )
}

pub open spec fn operation_wf(o: OperationDefinition, lo: int, hi: int) -> bool {
    &&& opt_span_ok(o.name, lo, hi)
    &&& vardefs_wf(o.variable_list@, lo, hi)
    &&& selections_wf(o.selection_list@, lo, hi)
    &&& directives_wf(o.directive_list@, lo, hi)
}

pub open spec fn fragment_def_wf(f: FragmentDefinition, lo: int, hi: int) -> bool {
    &&& span_ok(f.name, lo, hi)
    &&& span_ok(f.on, lo, hi)
    &&& selections_wf(f.selection_list@, lo, hi)
    &&& directives_wf(f.directive_list@, lo, hi)
}

pub open spec fn document_definition_wf(d: DocumentDefinition, lo: int, hi: int) -> bool {
    match d {
        DocumentDefinition::Operation(p) => span_ok(p, lo, hi) && operation_wf(
            p.value,
            p.start as int,
            p.end as int,
        ),
        DocumentDefinition::Fragment(p) => span_ok(p, lo, hi) && fragment_def_wf(
            p.value,
            p.start as int,
            p.end as int,
        ),
        DocumentDefinition::Schema(p) => span_ok(p, lo, hi) && schema_wf(p.value, p.start as int, p.end as int),
        DocumentDefinition::Type(p) => span_ok(p, lo, hi) && type_def_wf(p.value, p.start as int, p.end as int),
        DocumentDefinition::Directive(p) => span_ok(p, lo, hi) && directive_def_wf(
            p.value,
            p.start as int,
            p.end as int,
        ),
    }
}

pub open spec fn ts_definition_wf(d: TypeSystemDefinition, lo: int, hi: int) -> bool {
    match d {
        TypeSystemDefinition::Schema(p) => span_ok(p, lo, hi) && schema_wf(
            p.value,
            p.start as int,
            p.end as int,
        ),
        TypeSystemDefinition::Type(p) => span_ok(p, lo, hi) && type_def_wf(
            p.value,
            p.start as int,
            p.end as int,
        ),
        TypeSystemDefinition::Directive(p) => span_ok(p, lo, hi) && directive_def_wf(
            p.value,
            p.start as int,
            p.end as int,
        ),
    }
}

pub open spec fn exec_definition_wf(d: ExecutableDefinition, lo: int, hi: int) -> bool {
    match d {
        ExecutableDefinition::Operation(p) => span_ok(p, lo, hi) && operation_wf(
            p.value,
            p.start as int,
            p.end as int,
        ),
        ExecutableDefinition::Fragment(p) => span_ok(p, lo, hi) && fragment_def_wf(
            p.value,
            p.start as int,
            p.end as int,
        ),
    }
}

/// Top-level well-formedness of a definition list: every definition's span
/// is ordered and within the input, its children are nested within it, and
/// the definitions appear in source order without overlap.
pub open spec fn definition_list_wf<T>(
    s: Seq<Positioned<T>>,
    len: int,
    wf: spec_fn(T, int, int) -> bool,
) -> bool {
    &&& forall|i: int| 0 <= i < s.len() ==> span_ok(#[trigger] s[i], 0, len) && wf(
        s[i].value,
        s[i].start as int,
        s[i].end as int,
    )
    &&& forall|i: int| 0 <= i < s.len() - 1 ==> (#[trigger] s[i]).end <= s[i + 1].start
}

pub open spec fn document_wf(d: Document, len: int) -> bool {
    definition_list_wf(d.definition_list@, len, |v: DocumentDefinition, lo: int, hi: int| document_definition_wf(v, lo, hi))
}

pub open spec fn ts_document_wf(d: TypeSystemDocument, len: int) -> bool {
    definition_list_wf(d.definition_list@, len, |v: TypeSystemDefinition, lo: int, hi: int| ts_definition_wf(v, lo, hi))
}

pub open spec fn exec_document_wf(d: ExecutableDocument, len: int) -> bool {
    definition_list_wf(d.definition_list@, len, |v: ExecutableDefinition, lo: int, hi: int| exec_definition_wf(v, lo, hi))
}

} // verus!
