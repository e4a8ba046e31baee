use vstd::prelude::*;

use crate::ast::value::expression_span_of;
use crate::ast::{
    lemma_wf_reveal, member_key_of, Ast, Binding, Document, ExpressionValue,
    Member, MemberId, Root, SchemaKind, TypeExpr, TypeId, UnknownValue, Value, ValueId,
};
use crate::diagnostic::Diagnostic;
use crate::hir::{TypedDocument, TypedMember, TypedRoot, TypedValue};
use crate::parser::{diags_extend, lemma_diags_refl, lemma_diags_trans};
use crate::scheme::{SchemeCall, SchemeError, SchemeResolver, TypeReference, TypedAtom};
use crate::span::Span;

verus! {

/// The result of optional semantic resolution.
pub struct ResolveResult {
    pub document: TypedDocument,
    pub diagnostics: Vec<Diagnostic>,
    /// The questions that resolution put to the scheme, with its answers.
    pub calls: Ghost<Seq<SchemeCall>>,
}

impl ResolveResult {
    /// A result with the given document and diagnostics, and no record of
    /// scheme calls.
    pub fn new(document: TypedDocument, diagnostics: Vec<Diagnostic>) -> (r: Self)
        ensures
            r.document == document,
            r.diagnostics == diagnostics,
            r.calls@.len() == 0,
    {
        ResolveResult { document, diagnostics, calls: Ghost(Seq::empty()) }
    }

    pub fn has_errors(&self) -> (r: bool)
        ensures
            r == (self.diagnostics@.len() > 0),
    {
        !self.diagnostics.is_empty()
    }
}

// ---------------------------------------------------------------------------
// What resolution yields
// ---------------------------------------------------------------------------

/// The empty span that stands for a missing position.
pub open spec fn no_span() -> Span {
    Span { start: 0, end: 0 }
}

/// The span a member covers.
pub open spec fn member_span_of(m: Member) -> Span {
    match m {
        Member::Binding(b) => b.span,
        Member::TypeDeclaration(d) => d.span,
        Member::Error(e) => e.span,
    }
}

/// The message that stands for an expression, which resolution does not
/// evaluate.
pub open spec fn expression_message(e: ExpressionValue) -> Seq<char> {
    match e {
        ExpressionValue::Unary { .. } => "unresolved unary expression"@,
        ExpressionValue::Comparison { .. } => "unresolved comparison expression"@,
        ExpressionValue::Group { .. } => "unresolved grouped expression"@,
        ExpressionValue::Quantifier { .. } => "unresolved quantifier expression"@,
    }
}

/// The type name that stands for an inline schema value.
pub open spec fn schema_kind_name(kind: SchemaKind) -> Seq<char> {
    match kind {
        SchemaKind::Struct => "struct"@,
        SchemaKind::Enum => "enum"@,
    }
}

/// Some diagnostic of `diags` has `code` and `span`.
pub open spec fn reported(diags: Seq<Diagnostic>, code: Seq<char>, span: Span) -> bool {
    exists|k: int| 0 <= k < diags.len() && (#[trigger] diags[k]).code@ == code && diags[k].span == span
}

/// `tv` is an error value with `message` at `span`.
pub open spec fn is_error_value(tv: TypedValue, message: Seq<char>, span: Span) -> bool {
    tv matches TypedValue::Error { message: m, span: s } && m@ == message && s == span
}

/// The text of an optional string.
pub open spec fn opt_text(s: Option<String>) -> Option<Seq<char>> {
    match s {
        Some(t) => Some(t@),
        None => None,
    }
}

/// Each member of `ids` that has the key of an earlier member is reported
/// as a duplicate, at its own span.
pub open spec fn duplicates_reported(ast: Ast, ids: Seq<MemberId>, diags: Seq<Diagnostic>) -> bool {
    forall|i: int, j: int|
        #![trigger member_key_of(ast.members_view()[ids[i].0 as int]), member_key_of(ast.members_view()[ids[j].0 as int])]
        0 <= i < j < ids.len() && member_key_of(ast.members_view()[ids[i].0 as int]) is Some
            && member_key_of(ast.members_view()[ids[i].0 as int]) == member_key_of(
            ast.members_view()[ids[j].0 as int],
        ) ==> reported(diags, "E1001"@, member_span_of(ast.members_view()[ids[j].0 as int]))
}

/// A type annotation that is a syntax error is reported (`E1003`) with its
/// message and span.
pub open spec fn annotation_checked(ast: Ast, t: Option<TypeId>, diags: Seq<Diagnostic>) -> bool {
    match t {
        Some(id) => id.0 < ast.types_view().len() && ast.types_view()[id.0 as int] is Error ==> {
            let e = ast.types_view()[id.0 as int]->Error_0;
            exists|k: int|
                0 <= k < diags.len() && (#[trigger] diags[k]).code@ == "E1003"@ && diags[k].message@
                    == e.message@ && diags[k].span == e.span
        },
        None => true,
    }
}

/// `tv` is what resolution makes of value `id` of `ast`, given the final
/// diagnostics `diags`.
///
/// Literals keep their text and span; arrays and objects are resolved item by
/// item; an inline schema becomes its kind's name; an unknown atom is what the
/// scheme made of it, or an error reported as `E1002`; an expression, which
/// is not evaluated, and a syntax error become error values.
pub open spec fn resolved_value(ast: Ast, id: ValueId, tv: TypedValue, diags: Seq<Diagnostic>) -> bool
    decreases tv,
{
    if id.0 >= ast.values_view().len() {
        is_error_value(tv, "missing value"@, no_span())
    } else {
        match ast.values_view()[id.0 as int] {
            Value::Boolean { value, span } => tv == TypedValue::Boolean { value, span },
            Value::Number { raw, span } => tv matches TypedValue::Number { raw: r, span: s } && r@
                == raw@ && s == span,
            Value::String(v) => tv matches TypedValue::String { raw, span } && raw@ == v.raw@ && span
                == v.span,
            Value::Regex(v) => tv matches TypedValue::Regex { pattern, flags, span } && pattern@
                == v.pattern@ && opt_text(flags) == opt_text(v.flags) && span == v.span,
            Value::EnumPath(v) => tv matches TypedValue::EnumPath { path, span } && path@ == v.path@
                && span == v.span,
            Value::Array(a) => match tv {
                TypedValue::Array(items) => {
                    &&& items@.len() == a.items@.len()
                    &&& forall|k: int|
                        0 <= k < items@.len() ==> resolved_value(
                            ast,
                            a.items@[k],
                            #[trigger] items@[k],
                            diags,
                        )
                },
                _ => false,
            },
            Value::Object(o) => match tv {
                TypedValue::Object(members) => {
                    &&& members@.len() == o.members@.len()
                    &&& forall|k: int|
                        0 <= k < members@.len() ==> resolved_member(
                            ast,
                            o.members@[k],
                            #[trigger] members@[k],
                            diags,
                        )
                    &&& duplicates_reported(ast, o.members@, diags)
                },
                _ => false,
            },
            Value::Schema(v) => tv matches TypedValue::Schema { name, span } && name@
                == schema_kind_name(v.kind) && span == v.span,
            Value::Unknown(u) => {
                ||| tv is Atom
                ||| (is_error_value(tv, "scheme could not resolve unknown value"@, u.span) && reported(
                    diags,
                    "E1002"@,
                    u.span,
                ))
            },
            Value::Expression(e) => is_error_value(tv, expression_message(e), expression_span_of(e)),
            Value::Error(e) => is_error_value(tv, e.message@, e.span),
        }
    }
}

/// `tm` is what resolution makes of member `id` of `ast`: a binding keeps
/// its key and span and resolves its value; a type declaration becomes a
/// schema named after it; a member without a key is an invalid member.
pub open spec fn resolved_member(ast: Ast, id: MemberId, tm: TypedMember, diags: Seq<Diagnostic>) -> bool
    decreases tm,
{
    if id.0 >= ast.members_view().len() {
        false
    } else {
        match ast.members_view()[id.0 as int] {
            Member::Binding(b) => {
                &&& tm.key@ == b.key.raw@
                &&& tm.span == b.span
                &&& resolved_value(ast, b.value, tm.value, diags)
                &&& annotation_checked(ast, b.type_annotation, diags)
            },
            Member::TypeDeclaration(d) => {
                &&& tm.key@ == d.name.raw@
                &&& tm.span == d.span
                &&& tm.value matches TypedValue::Schema { name, span } && name@ == d.name.raw@ && span
                    == d.span
            },
            Member::Error(_) => {
                &&& tm.key@ == Seq::<char>::empty()
                &&& tm.span == no_span()
                &&& is_error_value(tm.value, "invalid member"@, no_span())
            },
        }
    }
}

/// `tms` is what resolution makes of the member list `ids`, and duplicate
/// keys among them are reported.
pub open spec fn resolved_members(
    ast: Ast,
    ids: Seq<MemberId>,
    tms: Seq<TypedMember>,
    diags: Seq<Diagnostic>,
) -> bool {
    &&& tms.len() == ids.len()
    &&& forall|k: int| 0 <= k < tms.len() ==> resolved_member(ast, ids[k], #[trigger] tms[k], diags)
    &&& duplicates_reported(ast, ids, diags)
}

/// `root` is what resolution makes of the root of `ast`.
pub open spec fn resolved_root(ast: Ast, root: TypedRoot, diags: Seq<Diagnostic>) -> bool {
    match ast.root_view() {
        Root::ImplicitObject { members } => root matches TypedRoot::Object(ms) && resolved_members(
            ast,
            members@,
            ms@,
            diags,
        ),
        Root::ExplicitObject { members } => root matches TypedRoot::Object(ms) && resolved_members(
            ast,
            members@,
            ms@,
            diags,
        ),
        Root::Array { items } => match root {
            TypedRoot::Array(vs) => {
                &&& vs@.len() == items@.len()
                &&& forall|k: int|
                    0 <= k < vs@.len() ==> resolved_value(ast, items@[k], #[trigger] vs@[k], diags)
            },
            _ => false,
        },
    }
}

/// `ids` is the member list of an object of `ast`: of an object root, or of
/// an object value.
pub open spec fn object_list(ast: Ast, ids: Seq<MemberId>) -> bool {
    ||| !(ast.root_view() is Array) && ids == ast.root_members()
    ||| exists|v: int|
        0 <= v < ast.values_view().len() && (#[trigger] ast.values_view()[v]) is Object
            && ast.values_view()[v]->Object_0.members@ == ids
}

/// A member of the object list `ids` at `span` repeats the key of an
/// earlier member of that list.
pub open spec fn repeats_key(ast: Ast, ids: Seq<MemberId>, span: Span) -> bool {
    exists|i: int, j: int|
        #![trigger member_key_of(ast.members_view()[ids[i].0 as int]), member_span_of(ast.members_view()[ids[j].0 as int])]
        0 <= i < j < ids.len() && member_key_of(ast.members_view()[ids[i].0 as int]) is Some
            && member_key_of(ast.members_view()[ids[i].0 as int]) == member_key_of(
            ast.members_view()[ids[j].0 as int],
        ) && member_span_of(ast.members_view()[ids[j].0 as int]) == span
}

/// Every duplicate-key diagnostic (`E1001`) stands at a member of some
/// object of `ast` that repeats the key of an earlier member of it.
pub open spec fn duplicates_justified(ast: Ast, diags: Seq<Diagnostic>) -> bool {
    forall|k: int|
        0 <= k < diags.len() && (#[trigger] diags[k]).code@ == "E1001"@ ==> exists|ids: Seq<MemberId>|
            object_list(ast, ids) && #[trigger] repeats_key(ast, ids, diags[k].span)
}

/// Some member of `ids` before the `k`-th has `key`.
#[verifier::opaque]
pub open spec fn key_seen_before(ast: Ast, ids: Seq<MemberId>, k: int, key: Seq<char>) -> bool {
    exists|j: int| 0 <= j < k && #[trigger] member_key_of(ast.members_view()[ids[j].0 as int]) == Some(key)
}

proof fn lemma_seen_step(ast: Ast, ids: Seq<MemberId>, k: int, seen: Seq<String>, added: Seq<String>)
    requires
        0 <= k < ids.len(),
        forall|t: int| 0 <= t < seen.len() ==> key_seen_before(ast, ids, k, (#[trigger] seen[t])@),
        added == seen || (added.len() == seen.len() + 1 && added.subrange(0, seen.len() as int) == seen
            && member_key_of(ast.members_view()[ids[k].0 as int]) == Some(added.last()@)),
    ensures
        forall|t: int| 0 <= t < added.len() ==> key_seen_before(ast, ids, k + 1, (#[trigger] added[t])@),
{
    reveal(key_seen_before);
    assert forall|t: int| 0 <= t < added.len() implies key_seen_before(ast, ids, k + 1, (#[trigger] added[t])@) by {
        if t < seen.len() {
            assert(added[t] == seen[t]);
            assert(key_seen_before(ast, ids, k, seen[t]@));
            let j = choose|j: int| 0 <= j < k && #[trigger] member_key_of(ast.members_view()[ids[j].0 as int]) == Some(seen[t]@);
            assert(0 <= j < k + 1);
        } else {
            assert(member_key_of(ast.members_view()[ids[k].0 as int]) == Some(added[t]@));
        }
    }
}

proof fn lemma_found_repeats(
    ast: Ast,
    ids: Seq<MemberId>,
    k: int,
    seen: Seq<String>,
    key: Seq<char>,
    span: Span,
)
    requires
        0 <= k < ids.len(),
        forall|t: int| 0 <= t < seen.len() ==> key_seen_before(ast, ids, k, (#[trigger] seen[t])@),
        exists|u: int| 0 <= u < seen.len() && (#[trigger] seen[u])@ == key,
        member_key_of(ast.members_view()[ids[k].0 as int]) == Some(key),
        member_span_of(ast.members_view()[ids[k].0 as int]) == span,
    ensures
        repeats_key(ast, ids, span),
{
    reveal(key_seen_before);
    let u = choose|u: int| 0 <= u < seen.len() && (#[trigger] seen[u])@ == key;
    assert(key_seen_before(ast, ids, k, seen[u]@));
    let j = choose|j: int| 0 <= j < k && #[trigger] member_key_of(ast.members_view()[ids[j].0 as int]) == Some(key);
    assert(member_key_of(ast.members_view()[ids[j].0 as int]) is Some);
    assert(member_span_of(ast.members_view()[ids[k].0 as int]) == span);
}

proof fn lemma_other_codes()
    ensures
        "E1002"@ != "E1001"@,
        "E1003"@ != "E1001"@,
{
    reveal_strlit("E1001");
    reveal_strlit("E1002");
    reveal_strlit("E1003");
    assert("E1002"@[4] != "E1001"@[4]);
    assert("E1003"@[4] != "E1001"@[4]);
}

proof fn lemma_justified_push(ast: Ast, d: Seq<Diagnostic>, x: Diagnostic)
    requires
        duplicates_justified(ast, d),
        x.code@ != "E1001"@ || exists|ids: Seq<MemberId>|
            object_list(ast, ids) && #[trigger] repeats_key(ast, ids, x.span),
    ensures
        duplicates_justified(ast, d.push(x)),
{
    assert forall|k: int|
        0 <= k < d.push(x).len() && (#[trigger] d.push(x)[k]).code@ == "E1001"@ implies exists|ids: Seq<MemberId>|
            object_list(ast, ids) && #[trigger] repeats_key(ast, ids, d.push(x)[k].span) by {
        if k < d.len() {
            assert(d.push(x)[k] == d[k]);
        }
    }
}

/// `new` holds the calls of `old` followed by those made since.
pub open spec fn calls_extend(new: Seq<SchemeCall>, old: Seq<SchemeCall>) -> bool {
    old.len() <= new.len() && new.subrange(0, old.len() as int) == old
}

proof fn lemma_calls_refl(a: Seq<SchemeCall>)
    ensures
        calls_extend(a, a),
{
    assert(a.subrange(0, a.len() as int) =~= a);
}

proof fn lemma_calls_trans(a: Seq<SchemeCall>, b: Seq<SchemeCall>, c: Seq<SchemeCall>)
    requires
        calls_extend(b, a),
        calls_extend(c, b),
    ensures
        calls_extend(c, a),
{
    assert(c.subrange(0, a.len() as int) =~= b.subrange(0, a.len() as int));
}

/// Some diagnostic of `diags` has `code`, `message` and `span`.
pub open spec fn reported_with(diags: Seq<Diagnostic>, code: Seq<char>, message: Seq<char>, span: Span) -> bool {
    exists|k: int|
        0 <= k < diags.len() && (#[trigger] diags[k]).code@ == code && diags[k].message@ == message
            && diags[k].span == span
}

/// `c` asked the scheme for the type named `path`, and `e` is what the
/// annotation at `span` then expects: the scheme's type at that span, or
/// none and an `E1002` with the scheme's message.
pub open spec fn type_call_fits(
    c: SchemeCall,
    path: Seq<char>,
    span: Span,
    e: Option<TypeReference>,
    diags: Seq<Diagnostic>,
) -> bool {
    match c {
        SchemeCall::Type { name, answer } => name@ == path && match answer {
            Ok(r) => e == Some(TypeReference { name: r.name, span: Some(span) }),
            Err(err) => e is None && reported_with(diags, "E1002"@, err.message@, span),
        },
        _ => false,
    }
}

/// `c` handed the unknown atom `u` to the scheme under the expected type
/// `e`, and `tv` is the scheme's atom, or an error with an `E1002` that
/// carries the scheme's message.
pub open spec fn unknown_call_fits(
    c: SchemeCall,
    e: Option<TypeReference>,
    u: UnknownValue,
    tv: TypedValue,
    diags: Seq<Diagnostic>,
) -> bool {
    match c {
        SchemeCall::Unknown { expected, value, answer } => expected == e && value == u && match answer {
            Ok(atom) => tv == TypedValue::Atom(atom),
            Err(err) => is_error_value(tv, "scheme could not resolve unknown value"@, u.span)
                && reported_with(diags, "E1002"@, err.message@, u.span),
        },
        _ => false,
    }
}

/// `e` is the expected type that the annotation `t` of `ast` gives, where
/// `calls` holds the scheme's answers: none without an annotation or for a
/// syntax error; a built-in or generic type by its name, an inline schema as
/// `schema`; and for a named type, the scheme was asked for its path and `e`
/// is the scheme's type, or none and an `E1002` with the scheme's message;
/// each with the annotation's span.
pub open spec fn expected_called(
    ast: Ast,
    t: Option<TypeId>,
    e: Option<TypeReference>,
    calls: Seq<SchemeCall>,
    diags: Seq<Diagnostic>,
) -> bool {
    match t {
        None => e is None,
        Some(type_id) => if type_id.0 < ast.types_view().len() {
            match ast.types_view()[type_id.0 as int] {
                TypeExpr::Named { path, span } => exists|k: int|
                    0 <= k < calls.len() && type_call_fits(#[trigger] calls[k], path@, span, e, diags),
                _ => expected_reference(ast, t, e),
            }
        } else {
            e is None
        },
    }
}

/// Where value `id` of `ast` is resolved to `tv` under the expected type
/// `e`, each unknown atom in it was handed to the scheme, with `e` for the
/// value itself and no expected type for the items and members inside it,
/// and became the scheme's atom, or an error with an `E1002` that carries
/// the scheme's message.
pub open spec fn calls_value(
    ast: Ast,
    id: ValueId,
    tv: TypedValue,
    e: Option<TypeReference>,
    calls: Seq<SchemeCall>,
    diags: Seq<Diagnostic>,
) -> bool
    decreases tv, 0nat,
{
    if id.0 >= ast.values_view().len() {
        true
    } else {
        match ast.values_view()[id.0 as int] {
            Value::Unknown(u) => exists|k: int|
                0 <= k < calls.len() && unknown_call_fits(#[trigger] calls[k], e, u, tv, diags),
            Value::Array(a) => match tv {
                TypedValue::Array(items) => items@.len() == a.items@.len() && forall|k: int|
                    0 <= k < items@.len() ==> calls_value(ast, a.items@[k], #[trigger] items@[k], None, calls, diags),
                _ => false,
            },
            Value::Object(o) => match tv {
                TypedValue::Object(members) => members@.len() == o.members@.len() && forall|k: int|
                    0 <= k < members@.len() ==> calls_member(ast, o.members@[k], #[trigger] members@[k], calls, diags),
                _ => false,
            },
            _ => true,
        }
    }
}

/// Where member `id` of `ast` is resolved to `tm`, a binding's value was
/// resolved under the expected type its annotation gives.
pub open spec fn calls_member(
    ast: Ast,
    id: MemberId,
    tm: TypedMember,
    calls: Seq<SchemeCall>,
    diags: Seq<Diagnostic>,
) -> bool
    decreases tm, 0nat,
{
    if id.0 >= ast.members_view().len() {
        true
    } else {
        match ast.members_view()[id.0 as int] {
            Member::Binding(b) => exists|e: Option<TypeReference>|
                #[trigger] expected_called(ast, b.type_annotation, e, calls, diags) && calls_value(
                    ast,
                    b.value,
                    tm.value,
                    e,
                    calls,
                    diags,
                ),
            _ => true,
        }
    }
}


/// What the scheme was asked while resolving the root of `ast` into `root`.
pub open spec fn calls_root(ast: Ast, root: TypedRoot, calls: Seq<SchemeCall>, diags: Seq<Diagnostic>) -> bool {
    match ast.root_view() {
        Root::Array { items } => match root {
            TypedRoot::Array(vs) => vs@.len() == items@.len() && forall|k: int|
                0 <= k < vs@.len() ==> calls_value(ast, items@[k], #[trigger] vs@[k], None, calls, diags),
            _ => false,
        },
        Root::ImplicitObject { members } | Root::ExplicitObject { members } => match root {
            TypedRoot::Object(ms) => ms@.len() == members@.len() && forall|k: int|
                0 <= k < ms@.len() ==> calls_member(ast, members@[k], #[trigger] ms@[k], calls, diags),
            _ => false,
        },
    }
}

proof fn lemma_reported_with_mono(d1: Seq<Diagnostic>, d2: Seq<Diagnostic>, code: Seq<char>, message: Seq<char>, span: Span)
    requires
        reported_with(d1, code, message, span),
        diags_extend(d2, d1),
    ensures
        reported_with(d2, code, message, span),
{
    let k = choose|k: int|
        0 <= k < d1.len() && (#[trigger] d1[k]).code@ == code && d1[k].message@ == message && d1[k].span == span;
    assert(d2.subrange(0, d1.len() as int)[k] == d2[k]);
}

proof fn lemma_expected_called_mono(
    ast: Ast,
    t: Option<TypeId>,
    e: Option<TypeReference>,
    c1: Seq<SchemeCall>,
    c2: Seq<SchemeCall>,
    d1: Seq<Diagnostic>,
    d2: Seq<Diagnostic>,
)
    requires
        expected_called(ast, t, e, c1, d1),
        calls_extend(c2, c1),
        diags_extend(d2, d1),
    ensures
        expected_called(ast, t, e, c2, d2),
{
    if let Some(type_id) = t {
        if type_id.0 < ast.types_view().len() {
            if let TypeExpr::Named { path, span } = ast.types_view()[type_id.0 as int] {
                let k = choose|k: int|
                    0 <= k < c1.len() && type_call_fits(#[trigger] c1[k], path@, span, e, d1);
                assert(c2.subrange(0, c1.len() as int)[k] == c2[k]);
                if let SchemeCall::Type { answer: Err(err), .. } = c1[k] {
                    lemma_reported_with_mono(d1, d2, "E1002"@, err.message@, span);
                }
            }
        }
    }
}

/// What the scheme was asked stays recorded as calls and diagnostics are
/// appended.
proof fn lemma_calls_value_mono(
    ast: Ast,
    id: ValueId,
    tv: TypedValue,
    e: Option<TypeReference>,
    c1: Seq<SchemeCall>,
    c2: Seq<SchemeCall>,
    d1: Seq<Diagnostic>,
    d2: Seq<Diagnostic>,
)
    requires
        calls_value(ast, id, tv, e, c1, d1),
        calls_extend(c2, c1),
        diags_extend(d2, d1),
    ensures
        calls_value(ast, id, tv, e, c2, d2),
    decreases tv,
{
    if id.0 < ast.values_view().len() {
        match ast.values_view()[id.0 as int] {
            Value::Unknown(u) => {
                let k = choose|k: int|
                    0 <= k < c1.len() && unknown_call_fits(#[trigger] c1[k], e, u, tv, d1);
                assert(c2.subrange(0, c1.len() as int)[k] == c2[k]);
                if let SchemeCall::Unknown { answer: Err(err), .. } = c1[k] {
                    lemma_reported_with_mono(d1, d2, "E1002"@, err.message@, u.span);
                }
            },
            Value::Array(a) => {
                if let TypedValue::Array(items) = tv {
                    assert forall|k: int| 0 <= k < items@.len() implies calls_value(
                        ast,
                        a.items@[k],
                        #[trigger] items@[k],
                        None,
                        c2,
                        d2,
                    ) by {
                        lemma_calls_value_mono(ast, a.items@[k], items@[k], None, c1, c2, d1, d2);
                    }
                }
            },
            Value::Object(o) => {
                if let TypedValue::Object(members) = tv {
                    assert forall|k: int| 0 <= k < members@.len() implies calls_member(
                        ast,
                        o.members@[k],
                        #[trigger] members@[k],
                        c2,
                        d2,
                    ) by {
                        lemma_calls_member_mono(ast, o.members@[k], members@[k], c1, c2, d1, d2);
                    }
                }
            },
            _ => {},
        }
    }
}

proof fn lemma_calls_member_mono(
    ast: Ast,
    id: MemberId,
    tm: TypedMember,
    c1: Seq<SchemeCall>,
    c2: Seq<SchemeCall>,
    d1: Seq<Diagnostic>,
    d2: Seq<Diagnostic>,
)
    requires
        calls_member(ast, id, tm, c1, d1),
        calls_extend(c2, c1),
        diags_extend(d2, d1),
    ensures
        calls_member(ast, id, tm, c2, d2),
    decreases tm,
{
    if id.0 < ast.members_view().len() {
        if let Member::Binding(b) = ast.members_view()[id.0 as int] {
            let e = choose|e: Option<TypeReference>|
                #[trigger] expected_called(ast, b.type_annotation, e, c1, d1) && calls_value(
                    ast,
                    b.value,
                    tm.value,
                    e,
                    c1,
                    d1,
                );
            lemma_expected_called_mono(ast, b.type_annotation, e, c1, c2, d1, d2);
            lemma_calls_value_mono(ast, b.value, tm.value, e, c1, c2, d1, d2);
        }
    }
}

// ---------------------------------------------------------------------------
// Diagnostics only grow
// ---------------------------------------------------------------------------

proof fn lemma_reported_mono(d1: Seq<Diagnostic>, d2: Seq<Diagnostic>, code: Seq<char>, span: Span)
    requires
        reported(d1, code, span),
        diags_extend(d2, d1),
    ensures
        reported(d2, code, span),
{
    let k = choose|k: int| 0 <= k < d1.len() && (#[trigger] d1[k]).code@ == code && d1[k].span == span;
    assert(d2.subrange(0, d1.len() as int)[k] == d2[k]);
}

proof fn lemma_annotation_mono(ast: Ast, t: Option<TypeId>, d1: Seq<Diagnostic>, d2: Seq<Diagnostic>)
    requires
        annotation_checked(ast, t, d1),
        diags_extend(d2, d1),
    ensures
        annotation_checked(ast, t, d2),
{
    if let Some(id) = t {
        if id.0 < ast.types_view().len() && ast.types_view()[id.0 as int] is Error {
            let e = ast.types_view()[id.0 as int]->Error_0;
            let k = choose|k: int|
                0 <= k < d1.len() && (#[trigger] d1[k]).code@ == "E1003"@ && d1[k].message@
                    == e.message@ && d1[k].span == e.span;
            assert(d2.subrange(0, d1.len() as int)[k] == d2[k]);
        }
    }
}

proof fn lemma_duplicates_mono(ast: Ast, ids: Seq<MemberId>, d1: Seq<Diagnostic>, d2: Seq<Diagnostic>)
    requires
        duplicates_reported(ast, ids, d1),
        diags_extend(d2, d1),
    ensures
        duplicates_reported(ast, ids, d2),
{
    assert forall|i: int, j: int|
        #![trigger member_key_of(ast.members_view()[ids[i].0 as int]), member_key_of(ast.members_view()[ids[j].0 as int])]
        0 <= i < j < ids.len() && member_key_of(ast.members_view()[ids[i].0 as int]) is Some
            && member_key_of(ast.members_view()[ids[i].0 as int]) == member_key_of(
            ast.members_view()[ids[j].0 as int],
        ) implies reported(d2, "E1001"@, member_span_of(ast.members_view()[ids[j].0 as int])) by {
        lemma_reported_mono(d1, d2, "E1001"@, member_span_of(ast.members_view()[ids[j].0 as int]));
    }
}

/// A resolved value stays resolved when diagnostics are appended.
proof fn lemma_value_mono(ast: Ast, id: ValueId, tv: TypedValue, d1: Seq<Diagnostic>, d2: Seq<Diagnostic>)
    requires
        resolved_value(ast, id, tv, d1),
        diags_extend(d2, d1),
    ensures
        resolved_value(ast, id, tv, d2),
    decreases tv,
{
    if id.0 < ast.values_view().len() {
        match ast.values_view()[id.0 as int] {
            Value::Array(a) => {
                if let TypedValue::Array(items) = tv {
                    assert forall|k: int| 0 <= k < items@.len() implies resolved_value(
                        ast,
                        a.items@[k],
                        #[trigger] items@[k],
                        d2,
                    ) by {
                        lemma_value_mono(ast, a.items@[k], items@[k], d1, d2);
                    }
                }
            },
            Value::Object(o) => {
                if let TypedValue::Object(members) = tv {
                    assert forall|k: int| 0 <= k < members@.len() implies resolved_member(
                        ast,
                        o.members@[k],
                        #[trigger] members@[k],
                        d2,
                    ) by {
                        lemma_member_mono(ast, o.members@[k], members@[k], d1, d2);
                    }
                    lemma_duplicates_mono(ast, o.members@, d1, d2);
                }
            },
            Value::Unknown(u) => {
                if !(tv is Atom) {
                    lemma_reported_mono(d1, d2, "E1002"@, u.span);
                }
            },
            _ => {},
        }
    }
}

/// A resolved member stays resolved when diagnostics are appended.
proof fn lemma_member_mono(ast: Ast, id: MemberId, tm: TypedMember, d1: Seq<Diagnostic>, d2: Seq<Diagnostic>)
    requires
        resolved_member(ast, id, tm, d1),
        diags_extend(d2, d1),
    ensures
        resolved_member(ast, id, tm, d2),
    decreases tm,
{
    if let Member::Binding(b) = ast.members_view()[id.0 as int] {
        lemma_value_mono(ast, b.value, tm.value, d1, d2);
        lemma_annotation_mono(ast, b.type_annotation, d1, d2);
    }
}

/// Extending the checked prefix of a member list by one member whose
/// duplication, if any, is reported.
proof fn lemma_duplicates_step(ast: Ast, ids: Seq<MemberId>, k: int, d: Seq<Diagnostic>)
    requires
        0 <= k < ids.len(),
        duplicates_reported(ast, ids.subrange(0, k), d),
        forall|i: int|
            0 <= i < k && member_key_of(ast.members_view()[ids[i].0 as int]) == member_key_of(
                ast.members_view()[ids[k].0 as int],
            ) && member_key_of(ast.members_view()[ids[k].0 as int]) is Some ==> reported(
                d,
                "E1001"@,
                member_span_of(ast.members_view()[ids[k].0 as int]),
            ),
    ensures
        duplicates_reported(ast, ids.subrange(0, k + 1), d),
{
    let p = ids.subrange(0, k);
    let q = ids.subrange(0, k + 1);
    assert forall|i: int, j: int|
        #![trigger member_key_of(ast.members_view()[q[i].0 as int]), member_key_of(ast.members_view()[q[j].0 as int])]
        0 <= i < j < q.len() && member_key_of(ast.members_view()[q[i].0 as int]) is Some
            && member_key_of(ast.members_view()[q[i].0 as int]) == member_key_of(
            ast.members_view()[q[j].0 as int],
        ) implies reported(d, "E1001"@, member_span_of(ast.members_view()[q[j].0 as int])) by {
        assert(q[i] == ids[i]);
        assert(q[j] == ids[j]);
        if j < k {
            assert(p[i] == ids[i]);
            assert(p[j] == ids[j]);
        }
    }
}

// ---------------------------------------------------------------------------
// Resolution
// ---------------------------------------------------------------------------

/// Resolve names and unknown atoms through an injected scheme.
pub fn resolve<R: SchemeResolver + ?Sized>(document: &Document, resolver: &R) -> (result:
    ResolveResult)
    requires
        document.ast.wf(),
    ensures
        resolved_root(document.ast, result.document.root, result.diagnostics@),
        calls_root(document.ast, result.document.root, result.calls@, result.diagnostics@),
        duplicates_justified(document.ast, result.diagnostics@),
{
    proof {
        lemma_wf_reveal(document.ast);
    }
    let mut context = ResolverContext {
        ast: &document.ast,
        resolver,
        diagnostics: Vec::new(),
        calls: Ghost(Seq::empty()),
    };
    proof {
        assert(duplicates_justified(document.ast, context.diagnostics@));
    }
    let root = match &document.ast.root {
        Root::ImplicitObject { members } => TypedRoot::Object(
            context.resolve_members(members.as_slice(), Ghost(document.ast.next_rank())),
        ),
        Root::ExplicitObject { members } => TypedRoot::Object(
            context.resolve_members(members.as_slice(), Ghost(document.ast.next_rank())),
        ),
        Root::Array { items } => {
            let mut values: Vec<TypedValue> = Vec::new();
            let mut k: usize = 0;
            while k < items.len()
                invariant
                    context.ast == &document.ast,
                    context.ast.well_formed(),
                    document.ast.root_refs_below(document.ast.root, document.ast.next_rank()),
                    document.ast.root == (Root::Array { items: *items }),
                    duplicates_justified(document.ast, context.diagnostics@),
                    k <= items@.len(),
                    values@.len() == k,
                    forall|j: int|
                        0 <= j < k ==> resolved_value(
                            document.ast,
                            items@[j],
                            #[trigger] values@[j],
                            context.diagnostics@,
                        ),
                    forall|j: int|
                        0 <= j < k ==> calls_value(
                            document.ast,
                            items@[j],
                            #[trigger] values@[j],
                            None,
                            context.calls@,
                            context.diagnostics@,
                        ),
                decreases items@.len() - k,
            {
                let ghost before = context.diagnostics@;
                let ghost before_calls = context.calls@;
                let value = context.resolve_value(items[k], None);
                proof {
                    assert forall|j: int| 0 <= j < k implies resolved_value(
                        document.ast,
                        items@[j],
                        #[trigger] values@[j],
                        context.diagnostics@,
                    ) by {
                        lemma_value_mono(document.ast, items@[j], values@[j], before, context.diagnostics@);
                    }
                    assert forall|j: int| 0 <= j < k implies calls_value(
                        document.ast,
                        items@[j],
                        #[trigger] values@[j],
                        None,
                        context.calls@,
                        context.diagnostics@,
                    ) by {
                        lemma_calls_value_mono(document.ast, items@[j], values@[j], None, before_calls, context.calls@, before, context.diagnostics@);
                    }
                }
                values.push(value);
                k = k + 1;
            }
            TypedRoot::Array(values)
        },
    };
    ResolveResult { document: TypedDocument { root }, diagnostics: context.diagnostics, calls: context.calls }
}

struct ResolverContext<'document, 'resolver, R: SchemeResolver + ?Sized> {
    ast: &'document Ast,
    resolver: &'resolver R,
    diagnostics: Vec<Diagnostic>,
    /// The questions put to the scheme so far, with its answers.
    calls: Ghost<Seq<SchemeCall>>,
}

impl<'document, 'resolver, R: SchemeResolver + ?Sized> ResolverContext<'document, 'resolver, R> {
    /// The context continues `old`: the same AST and scheme, and only
    /// appended diagnostics.
    spec fn continues(&self, old: Self) -> bool {
        &&& self.ast == old.ast
        &&& self.resolver == old.resolver
        &&& diags_extend(self.diagnostics@, old.diagnostics@)
        &&& calls_extend(self.calls@, old.calls@)
        &&& duplicates_justified(*old.ast, old.diagnostics@) ==> duplicates_justified(
            *self.ast,
            self.diagnostics@,
        )
    }

    /// Ask the scheme for the type named `path`, and record the question.
    fn ask_type(&mut self, path: &String) -> (r: Result<TypeReference, SchemeError>)
        ensures
            final(self).ast == old(self).ast,
            final(self).resolver == old(self).resolver,
            final(self).diagnostics == old(self).diagnostics,
            final(self).calls@ == old(self).calls@.push(SchemeCall::Type { name: *path, answer: r }),
    {
        let r = self.resolver.resolve_type(path.as_str());
        proof {
            self.calls = Ghost(self.calls@.push(SchemeCall::Type { name: *path, answer: r }));
        }
        r
    }

    /// Hand the unknown atom `value` to the scheme under the `expected`
    /// type, and record the question.
    fn ask_unknown(&mut self, expected: Option<&TypeReference>, value: &UnknownValue) -> (r: Result<
        TypedAtom,
        SchemeError,
    >)
        ensures
            final(self).ast == old(self).ast,
            final(self).resolver == old(self).resolver,
            final(self).diagnostics == old(self).diagnostics,
            final(self).calls@ == old(self).calls@.push(
                SchemeCall::Unknown { expected: owned_reference(expected), value: *value, answer: r },
            ),
    {
        let r = self.resolver.resolve_unknown(expected, value);
        proof {
            self.calls = Ghost(
                self.calls@.push(
                    SchemeCall::Unknown { expected: owned_reference(expected), value: *value, answer: r },
                ),
            );
        }
        r
    }

    #[verifier::rlimit(100)]
    fn resolve_members(&mut self, member_ids: &[MemberId], Ghost(bound): Ghost<nat>) -> (members: Vec<
        TypedMember,
    >)
        requires
            old(self).ast.well_formed(),
            old(self).ast.members_below(member_ids@, bound),
            object_list(*old(self).ast, member_ids@),
        ensures
            final(self).continues(*old(self)),
            resolved_members(*old(self).ast, member_ids@, members@, final(self).diagnostics@),
            forall|j: int|
                0 <= j < member_ids@.len() ==> calls_member(
                    *old(self).ast,
                    member_ids@[j],
                    #[trigger] members@[j],
                    final(self).calls@,
                    final(self).diagnostics@,
                ),
        decreases bound, 2nat,
    {
        let ghost ast = *self.ast;
        proof {
            lemma_diags_refl(self.diagnostics@);
            lemma_calls_refl(self.calls@);
        }
        let mut seen_keys: Vec<String> = Vec::new();
        let mut members: Vec<TypedMember> = Vec::new();
        let mut k: usize = 0;
        while k < member_ids.len()
            invariant
                self.continues(*old(self)),
                ast == *self.ast,
                ast.well_formed(),
                ast.members_below(member_ids@, bound),
                k <= member_ids@.len(),
                members@.len() == k,
                forall|j: int|
                    0 <= j < k ==> resolved_member(
                        ast,
                        member_ids@[j],
                        #[trigger] members@[j],
                        self.diagnostics@,
                    ),
                forall|j: int|
                    #![trigger member_key_of(ast.members_view()[member_ids@[j].0 as int])]
                    0 <= j < k && member_key_of(ast.members_view()[member_ids@[j].0 as int]) is Some
                        ==> exists|t: int|
                        0 <= t < seen_keys@.len() && Some((#[trigger] seen_keys@[t])@) == member_key_of(
                            ast.members_view()[member_ids@[j].0 as int],
                        ),
                duplicates_reported(ast, member_ids@.subrange(0, k as int), self.diagnostics@),
                object_list(ast, member_ids@),
                forall|t: int|
                    0 <= t < seen_keys@.len() ==> key_seen_before(ast, member_ids@, k as int, (#[trigger] seen_keys@[t])@),
                forall|j: int|
                    0 <= j < k ==> calls_member(
                        ast,
                        member_ids@[j],
                        #[trigger] members@[j],
                        self.calls@,
                        self.diagnostics@,
                    ),
            decreases member_ids@.len() - k,
        {
            proof {
                lemma_wf_reveal(ast);
            }
            let ghost before = self.diagnostics@;
            let ghost before_calls = self.calls@;
            let ghost seen_start = seen_keys@;
            let member_id = member_ids[k];
            proof {
                assert(ast.member_below(member_ids@[k as int], bound));
            }
            let member = match self.ast.member(member_id) {
                Some(member) => member,
                None => {
                    proof {
                        assert(false);
                    }
                    k = k + 1;
                    continue ;
                },
            };
            let ghost key_k = member_key_of(*member);
            let typed = match member_key(member) {
                None => {
                    proof {
                        lemma_diags_refl(before);
                    }
                    TypedMember {
                        key: String::new(),
                        value: TypedValue::Error {
                            message: "invalid member".to_owned(),
                            span: no_span_value(),
                        },
                        span: no_span_value(),
                    }
                },
                Some(key) => {
                    let key_text = key.to_owned();
                    let mut found = false;
                    let mut t: usize = 0;
                    while t < seen_keys.len()
                        invariant
                            t <= seen_keys@.len(),
                            found <==> exists|u: int|
                                0 <= u < t && (#[trigger] seen_keys@[u])@ == key_text@,
                        decreases seen_keys@.len() - t,
                    {
                        if seen_keys[t] == key_text {
                            found = true;
                        }
                        t = t + 1;
                    }
                    let ghost old_seen = seen_keys@;
                    if found {
                        let span = member_span(member);
                        let diagnostic = Diagnostic::new("E1001", "duplicate key in object", span);
                        proof {
                            assert(member_key_of(ast.members_view()[member_ids@[k as int].0 as int]) == key_k);
                            lemma_found_repeats(ast, member_ids@, k as int, seen_keys@, key_text@, span);
                            if duplicates_justified(ast, self.diagnostics@) {
                                lemma_justified_push(ast, self.diagnostics@, diagnostic);
                            }
                        }
                        self.diagnostics.push(diagnostic);
                    } else {
                        seen_keys.push(key_text);
                    }
                    let ghost middle = self.diagnostics@;
                    proof {
                        assert(middle.subrange(0, before.len() as int) =~= before);
                        assert forall|i: int|
                            0 <= i < k && member_key_of(ast.members_view()[member_ids@[i].0 as int])
                                == key_k implies reported(
                            middle,
                            "E1001"@,
                            member_span_of(*member),
                        ) by {
                            let x = choose|x: int|
                                0 <= x < old_seen.len() && Some((#[trigger] old_seen[x])@)
                                    == member_key_of(ast.members_view()[member_ids@[i].0 as int]);
                            assert(old_seen[x]@ == key_text@);
                            assert(middle[middle.len() - 1].code@ == "E1001"@);
                        }
                        assert(exists|x: int|
                            0 <= x < seen_keys@.len() && Some((#[trigger] seen_keys@[x])@) == key_k) by {
                            if found {
                                let x = choose|x: int| 0 <= x < old_seen.len() && (#[trigger] old_seen[x])@ == key_text@;
                                assert(seen_keys@[x] == old_seen[x]);
                            } else {
                                assert(seen_keys@[old_seen.len() as int]@ == key_text@);
                            }
                        }
                        assert forall|j: int|
                            #![trigger member_key_of(ast.members_view()[member_ids@[j].0 as int])]
                            0 <= j < k && member_key_of(ast.members_view()[member_ids@[j].0 as int]) is Some
                                implies exists|x: int|
                                0 <= x < seen_keys@.len() && Some((#[trigger] seen_keys@[x])@)
                                    == member_key_of(ast.members_view()[member_ids@[j].0 as int]) by {
                            let x = choose|x: int|
                                0 <= x < old_seen.len() && Some((#[trigger] old_seen[x])@)
                                    == member_key_of(ast.members_view()[member_ids@[j].0 as int]);
                            assert(seen_keys@[x] == old_seen[x]);
                        }
                    }
                    let typed = match member {
                        Member::Binding(binding) => self.resolve_binding(
                            binding,
                            Ghost(ast.member_rank(member_id)),
                        ),
                        Member::TypeDeclaration(declaration) => {
                            proof {
                                lemma_diags_refl(middle);
                            }
                            TypedMember {
                                key: declaration.name.raw.clone(),
                                value: TypedValue::Schema {
                                    name: declaration.name.raw.clone(),
                                    span: declaration.span,
                                },
                                span: declaration.span,
                            }
                        },
                        Member::Error(error) => {
                            proof {
                                lemma_diags_refl(middle);
                            }
                            TypedMember {
                                key: key.to_owned(),
                                value: TypedValue::Error {
                                    message: error.message.clone(),
                                    span: error.span,
                                },
                                span: error.span,
                            }
                        },
                    };
                    proof {
                        lemma_diags_trans(before, middle, self.diagnostics@);
                        assert forall|i: int|
                            0 <= i < k && member_key_of(ast.members_view()[member_ids@[i].0 as int])
                                == key_k implies reported(
                            self.diagnostics@,
                            "E1001"@,
                            member_span_of(*member),
                        ) by {
                            lemma_reported_mono(middle, self.diagnostics@, "E1001"@, member_span_of(*member));
                        }
                    }
                    typed
                },
            };
            proof {
                assert forall|j: int|
                    0 <= j < k implies resolved_member(
                    ast,
                    member_ids@[j],
                    #[trigger] members@[j],
                    self.diagnostics@,
                ) by {
                    lemma_member_mono(ast, member_ids@[j], members@[j], before, self.diagnostics@);
                }
                lemma_duplicates_mono(ast, member_ids@.subrange(0, k as int), before, self.diagnostics@);
                lemma_duplicates_step(ast, member_ids@, k as int, self.diagnostics@);
                if seen_keys@ != seen_start {
                    assert(seen_keys@.subrange(0, seen_start.len() as int) =~= seen_start);
                }
                lemma_seen_step(ast, member_ids@, k as int, seen_start, seen_keys@);
                lemma_diags_trans(old(self).diagnostics@, before, self.diagnostics@);
                if self.calls@ == before_calls {
                    lemma_calls_refl(before_calls);
                }
                lemma_calls_trans(old(self).calls@, before_calls, self.calls@);
                assert forall|j: int|
                    0 <= j < k implies calls_member(
                    ast,
                    member_ids@[j],
                    #[trigger] members@[j],
                    self.calls@,
                    self.diagnostics@,
                ) by {
                    lemma_calls_member_mono(ast, member_ids@[j], members@[j], before_calls, self.calls@, before, self.diagnostics@);
                }
            }
            members.push(typed);
            k = k + 1;
        }
        proof {
            assert(member_ids@.subrange(0, k as int) =~= member_ids@);
        }
        members
    }

    fn resolve_binding(&mut self, binding: &Binding, Ghost(bound): Ghost<nat>) -> (member: TypedMember)
        requires
            old(self).ast.well_formed(),
            old(self).ast.value_below(binding.value, bound),
        ensures
            final(self).continues(*old(self)),
            member.key@ == binding.key.raw@,
            member.span == binding.span,
            resolved_value(*old(self).ast, binding.value, member.value, final(self).diagnostics@),
            annotation_checked(*old(self).ast, binding.type_annotation, final(self).diagnostics@),
            exists|e: Option<TypeReference>|
                #[trigger] expected_called(
                    *old(self).ast,
                    binding.type_annotation,
                    e,
                    final(self).calls@,
                    final(self).diagnostics@,
                ) && calls_value(
                    *old(self).ast,
                    binding.value,
                    member.value,
                    e,
                    final(self).calls@,
                    final(self).diagnostics@,
                ),
        decreases bound, 1nat,
    {
        let ghost start = *self;
        let expected = match binding.type_annotation {
            Some(type_id) => self.resolve_type_reference(type_id),
            None => {
                proof {
                    lemma_diags_refl(self.diagnostics@);
                    lemma_calls_refl(self.calls@);
                }
                None
            },
        };
        let ghost middle = self.diagnostics@;
        let ghost middle_calls = self.calls@;
        let value = match &expected {
            Some(reference) => self.resolve_value(binding.value, Some(reference)),
            None => self.resolve_value(binding.value, None),
        };
        proof {
            lemma_diags_trans(start.diagnostics@, middle, self.diagnostics@);
            lemma_calls_trans(start.calls@, middle_calls, self.calls@);
            lemma_annotation_mono(*self.ast, binding.type_annotation, middle, self.diagnostics@);
            lemma_expected_called_mono(
                *self.ast,
                binding.type_annotation,
                expected,
                middle_calls,
                self.calls@,
                middle,
                self.diagnostics@,
            );
            assert(calls_value(*self.ast, binding.value, value, expected, self.calls@, self.diagnostics@));
        }
        TypedMember { key: binding.key.raw.clone(), value, span: binding.span }
    }

    fn resolve_value(&mut self, value_id: ValueId, expected: Option<&TypeReference>) -> (r: TypedValue)
        requires
            old(self).ast.well_formed(),
        ensures
            final(self).continues(*old(self)),
            resolved_value(*old(self).ast, value_id, r, final(self).diagnostics@),
            calls_value(
                *old(self).ast,
                value_id,
                r,
                owned_reference(expected),
                final(self).calls@,
                final(self).diagnostics@,
            ),
        decreases old(self).ast.value_rank(value_id) + 1, 0nat,
    {
        let ghost start = self.diagnostics@;
        let ghost start_calls = self.calls@;
        proof {
            lemma_wf_reveal(*self.ast);
            lemma_diags_refl(start);
            lemma_calls_refl(start_calls);
        }
        let ast = self.ast;
        let value = match ast.value(value_id) {
            Some(value) => value,
            None => {
                return TypedValue::Error { message: "missing value".to_owned(), span: no_span_value() };
            },
        };
        proof {
            assert(ast.value_refs_below(*value, ast.value_rank(value_id)));
        }
        match value {
            Value::Boolean { value, span } => TypedValue::Boolean { value: *value, span: *span },
            Value::Number { raw, span } => TypedValue::Number { raw: raw.clone(), span: *span },
            Value::String(value) => TypedValue::String { raw: value.raw.clone(), span: value.span },
            Value::Regex(value) => TypedValue::Regex {
                pattern: value.pattern.clone(),
                flags: match &value.flags {
                    Some(flags) => Some(flags.clone()),
                    None => None,
                },
                span: value.span,
            },
            Value::EnumPath(value) => TypedValue::EnumPath { path: value.path.clone(), span: value.span },
            Value::Array(value) => {
                let mut items: Vec<TypedValue> = Vec::new();
                let mut k: usize = 0;
                while k < value.items.len()
                    invariant
                        self.continues(*old(self)),
                        start == old(self).diagnostics@,
                        self.ast == ast,
                        ast.well_formed(),
                        ast.values_below(value.items@, ast.value_rank(value_id)),
                        k <= value.items@.len(),
                        items@.len() == k,
                        forall|j: int|
                            0 <= j < k ==> resolved_value(
                                *ast,
                                value.items@[j],
                                #[trigger] items@[j],
                                self.diagnostics@,
                            ),
                        start_calls == old(self).calls@,
                        forall|j: int|
                            0 <= j < k ==> calls_value(
                                *ast,
                                value.items@[j],
                                #[trigger] items@[j],
                                None,
                                self.calls@,
                                self.diagnostics@,
                            ),
                    decreases value.items@.len() - k,
                {
                    let ghost before = self.diagnostics@;
                    let ghost before_calls = self.calls@;
                    proof {
                        assert(ast.value_below(value.items@[k as int], ast.value_rank(value_id)));
                    }
                    let item = self.resolve_value(value.items[k], None);
                    proof {
                        lemma_diags_trans(start, before, self.diagnostics@);
                        lemma_calls_trans(start_calls, before_calls, self.calls@);
                        assert forall|j: int| 0 <= j < k implies calls_value(
                            *ast,
                            value.items@[j],
                            #[trigger] items@[j],
                            None,
                            self.calls@,
                            self.diagnostics@,
                        ) by {
                            lemma_calls_value_mono(*ast, value.items@[j], items@[j], None, before_calls, self.calls@, before, self.diagnostics@);
                        }
                        assert forall|j: int| 0 <= j < k implies resolved_value(
                            *ast,
                            value.items@[j],
                            #[trigger] items@[j],
                            self.diagnostics@,
                        ) by {
                            lemma_value_mono(*ast, value.items@[j], items@[j], before, self.diagnostics@);
                        }
                    }
                    items.push(item);
                    k = k + 1;
                }
                TypedValue::Array(items)
            },
            Value::Object(value) => TypedValue::Object(
                self.resolve_members(value.members.as_slice(), Ghost(ast.value_rank(value_id))),
            ),
            Value::Schema(value) => TypedValue::Schema {
                name: match value.kind {
                    SchemaKind::Struct => "struct".to_owned(),
                    SchemaKind::Enum => "enum".to_owned(),
                },
                span: value.span,
            },
            Value::Unknown(value) => {
                let outcome = self.ask_unknown(expected, value);
                let ghost asked = self.calls@;
                let ghost answer = outcome;
                let (typed, diagnostic) = unknown_outcome(outcome, value.span);
                if let Some(diagnostic) = diagnostic {
                    proof {
                        lemma_other_codes();
                        if duplicates_justified(*self.ast, self.diagnostics@) {
                            lemma_justified_push(*self.ast, self.diagnostics@, diagnostic);
                        }
                    }
                    self.diagnostics.push(diagnostic);
                    proof {
                        let d = self.diagnostics@;
                        assert(d.subrange(0, start.len() as int) =~= start);
                        assert(d[d.len() - 1].code@ == "E1002"@);
                        if let Err(err) = answer {
                            assert(d[d.len() - 1].message@ == err.message@);
                        }
                    }
                }
                proof {
                    let k = asked.len() - 1;
                    assert(asked.subrange(0, old(self).calls@.len() as int) =~= old(self).calls@);
                    assert(unknown_call_fits(asked[k], owned_reference(expected), *value, typed, self.diagnostics@));
                }
                typed
            },
            Value::Expression(expression) => TypedValue::Error {
                message: format_expression_error(expression),
                span: expression.span(),
            },
            Value::Error(error) => TypedValue::Error { message: error.message.clone(), span: error.span },
        }
    }

    fn resolve_type_reference(&mut self, type_id: TypeId) -> (r: Option<TypeReference>)
        requires
            old(self).ast.well_formed(),
        ensures
            final(self).continues(*old(self)),
            annotation_checked(*old(self).ast, Some(type_id), final(self).diagnostics@),
            expected_called(*old(self).ast, Some(type_id), r, final(self).calls@, final(self).diagnostics@),
    {
        let ghost start = self.diagnostics@;
        proof {
            lemma_diags_refl(start);
            lemma_calls_refl(self.calls@);
        }
        let type_expr = match self.ast.type_expr(type_id) {
            Some(type_expr) => type_expr,
            None => return None,
        };
        match type_expr {
            TypeExpr::Builtin { name, span } => Some(TypeReference { name: name.clone(), span: Some(*span) }),
            TypeExpr::Named { path, span } => {
                let answer = self.ask_type(path);
                let ghost asked = self.calls@;
                let ghost given = answer;
                proof {
                    assert(asked.subrange(0, old(self).calls@.len() as int) =~= old(self).calls@);
                }
                match answer {
                    Ok(reference) => {
                        let mut reference = reference;
                        reference.span = Some(*span);
                        proof {
                            assert(type_call_fits(asked[asked.len() - 1], path@, *span, Some(reference), self.diagnostics@));
                        }
                        Some(reference)
                    },
                    Err(error) => {
                        let diagnostic = scheme_diagnostic(*span, error);
                        proof {
                            lemma_other_codes();
                            if duplicates_justified(*self.ast, self.diagnostics@) {
                                lemma_justified_push(*self.ast, self.diagnostics@, diagnostic);
                            }
                        }
                        self.diagnostics.push(diagnostic);
                        proof {
                            let d = self.diagnostics@;
                            assert(d.subrange(0, start.len() as int) =~= start);
                            assert(d[d.len() - 1].code@ == "E1002"@);
                            assert(type_call_fits(asked[asked.len() - 1], path@, *span, None, d));
                        }
                        None
                    },
                }
            },
            TypeExpr::Generic { constructor, span, .. } => Some(
                TypeReference { name: constructor.clone(), span: Some(*span) },
            ),
            TypeExpr::Schema { span, .. } => Some(TypeReference { name: "schema".to_owned(), span: Some(*span) }),
            TypeExpr::Error(error) => {
                let diagnostic = Diagnostic::new("E1003", error.message.as_str(), error.span);
                proof {
                    lemma_other_codes();
                    if duplicates_justified(*self.ast, self.diagnostics@) {
                        lemma_justified_push(*self.ast, self.diagnostics@, diagnostic);
                    }
                }
                self.diagnostics.push(diagnostic);
                proof {
                    let d = self.diagnostics@;
                    assert(d.subrange(0, start.len() as int) =~= start);
                    assert(d[d.len() - 1].code@ == "E1003"@);
                }
                None
            },
        }
    }
}

/// The type reference behind an optional borrow of one.
pub open spec fn owned_reference(r: Option<&TypeReference>) -> Option<TypeReference> {
    match r {
        Some(t) => Some(*t),
        None => None,
    }
}

/// `r` is the expected type that the annotation `t` of `ast` gives: none
/// without an annotation or for a syntax error; a built-in or generic type
/// by its name, an inline schema as `schema`, each with the annotation's
/// span; and for a named type what the scheme resolved it to, with the
/// annotation's span.
pub open spec fn expected_reference(ast: Ast, t: Option<TypeId>, r: Option<TypeReference>) -> bool {
    match t {
        None => r is None,
        Some(type_id) => if type_id.0 < ast.types_view().len() {
            match ast.types_view()[type_id.0 as int] {
                TypeExpr::Builtin { name, span } => r matches Some(t) && t.name@ == name@ && t.span
                    == Some(span),
                TypeExpr::Named { span, .. } => r matches Some(t) ==> t.span == Some(span),
                TypeExpr::Generic { constructor, span, .. } => r matches Some(t) && t.name@
                    == constructor@ && t.span == Some(span),
                TypeExpr::Schema { span, .. } => r matches Some(t) && t.name@ == "schema"@ && t.span
                    == Some(span),
                TypeExpr::Error(_) => r is None,
            }
        } else {
            r is None
        },
    }
}

/// The empty span.
fn no_span_value() -> (span: Span)
    ensures
        span == no_span(),
{
    Span { start: 0, end: 0 }
}

/// The message that stands for an expression.
fn format_expression_error(expression: &ExpressionValue) -> (message: String)
    ensures
        message@ == expression_message(*expression),
{
    match expression {
        ExpressionValue::Unary { .. } => "unresolved unary expression".to_owned(),
        ExpressionValue::Comparison { .. } => "unresolved comparison expression".to_owned(),
        ExpressionValue::Group { .. } => "unresolved grouped expression".to_owned(),
        ExpressionValue::Quantifier { .. } => "unresolved quantifier expression".to_owned(),
    }
}

/// The diagnostic for what a scheme could not resolve.
fn scheme_diagnostic(span: Span, error: SchemeError) -> (d: Diagnostic)
    ensures
        d.code@ == "E1002"@,
        d.message@ == error.message@,
        d.span == span,
{
    Diagnostic::new("E1002", error.message.as_str(), span)
}

/// What resolution makes of an unknown atom at `span` from the scheme's
/// answer: the scheme's atom itself, or an error value together with an
/// `E1002` diagnostic that carries the scheme's message.
pub fn unknown_outcome(outcome: Result<TypedAtom, SchemeError>, span: Span) -> (r: (
    TypedValue,
    Option<Diagnostic>,
))
    ensures
        match outcome {
            Ok(atom) => r.0 == TypedValue::Atom(atom) && r.1 is None,
            Err(error) => {
                &&& is_error_value(r.0, "scheme could not resolve unknown value"@, span)
                &&& r.1 matches Some(d) && d.code@ == "E1002"@ && d.message@ == error.message@
                    && d.span == span
            },
        },
{
    match outcome {
        Ok(atom) => (TypedValue::Atom(atom), None),
        Err(error) => (
            TypedValue::Error { message: "scheme could not resolve unknown value".to_owned(), span },
            Some(scheme_diagnostic(span, error)),
        ),
    }
}

/// The key of a member: a binding's key or a type declaration's name.
fn member_key(member: &Member) -> (r: Option<&str>)
    ensures
        r is None <==> member is Error,
        r matches Some(k) ==> Some(k@) == member_key_of(*member),
{
    match member {
        Member::Binding(binding) => Some(binding.key.raw.as_str()),
        Member::TypeDeclaration(declaration) => Some(declaration.name.raw.as_str()),
        Member::Error(_) => None,
    }
}

/// The span a member covers.
fn member_span(member: &Member) -> (span: Span)
    ensures
        span == member_span_of(*member),
{
    match member {
        Member::Binding(binding) => binding.span,
        Member::TypeDeclaration(declaration) => declaration.span,
        Member::Error(error) => error.span,
    }
}

} // verus!
