use vstd::prelude::*;

use crate::diagnostic::Diagnostic;
use crate::span::Span;
use crate::text::text_of;
use crate::token::{Token, Trivia};

pub mod annotation;
pub mod schema;
pub mod types;
pub mod value;

pub use annotation::{Annotation, AnnotationArgument};
pub use schema::{EnumVariant, Schema, SchemaKind, StructField};
pub use types::{type_kind_of, type_span_of, TypeExpr, TypeKind};
pub use value::{
    value_kind_of, value_span_of, ArrayValue, AstValue, ComparisonOperator, EnumValue, EnumValueKind,
    ExpressionValue, ObjectValue, QuantifierKind, RegexValue, SchemaValue, StringPart,
    StringPartKind, StringValue, UnaryOperator, UnknownShape, UnknownValue, Value, ValueKind,
};

verus! {

#[derive(Debug, Clone, Copy, PartialEq, Eq, Structural, Hash, PartialOrd, Ord)]
pub struct NodeId(pub u32);

#[derive(Debug, Clone, Copy, PartialEq, Eq, Structural, Hash, PartialOrd, Ord)]
pub struct MemberId(pub u32);

#[derive(Debug, Clone, Copy, PartialEq, Eq, Structural, Hash, PartialOrd, Ord)]
pub struct ValueId(pub u32);

#[derive(Debug, Clone, Copy, PartialEq, Eq, Structural, Hash, PartialOrd, Ord)]
pub struct TypeId(pub u32);

#[derive(Debug, Clone, Copy, PartialEq, Eq, Structural, Hash, PartialOrd, Ord)]
pub struct SchemaId(pub u32);

#[derive(Debug, Clone, Copy, PartialEq, Eq, Structural, Hash, PartialOrd, Ord)]
pub struct AnnotationId(pub u32);

/// The parsed document and its source-backed syntax projections.
#[derive(Clone)]
pub struct Document {
    pub source: String,
    pub cst: SyntaxTree,
    pub ast: Ast,
}

impl Document {
    pub open spec fn source_view(&self) -> Seq<char> {
        self.source@
    }

    /// The exact source text the document was parsed from.
    pub fn source(&self) -> (r: &str)
        ensures
            r@ == self.source_view(),
    {
        self.source.as_str()
    }
}

/// The result of a syntactic parse.
#[derive(Clone)]
pub struct ParseResult {
    pub document: Document,
    pub diagnostics: Vec<Diagnostic>,
}

impl ParseResult {
    pub fn has_errors(&self) -> (r: bool)
        ensures
            r == (self.diagnostics@.len() > 0),
    {
        !self.diagnostics.is_empty()
    }
}

/// A lossless indexed syntax tree.
#[derive(Debug, Clone, Default)]
pub struct SyntaxTree {
    pub nodes: Vec<CstNode>,
    pub tokens: Vec<Token>,
    pub trivia: Vec<Trivia>,
}

impl SyntaxTree {
    /// Every node's id is its index, and its children come before it.
    pub open spec fn wf(&self) -> bool {
        forall|i: int|
            0 <= i < self.nodes@.len() ==> {
                &&& (#[trigger] self.nodes@[i]).id.0 == i
                &&& forall|k: int|
                    0 <= k < self.nodes@[i].children@.len() ==> (#[trigger] self.nodes@[i].children@[k]).0
                        < i
            }
    }

    pub fn has_error_nodes(&self) -> (r: bool)
        ensures
            r == exists|i: int|
                0 <= i < self.nodes@.len() && (#[trigger] self.nodes@[i]).kind == CstNodeKind::Error,
    {
        let mut i: usize = 0;
        while i < self.nodes.len()
            invariant
                i <= self.nodes@.len(),
                forall|k: int| 0 <= k < i ==> (#[trigger] self.nodes@[k]).kind != CstNodeKind::Error,
            decreases self.nodes@.len() - i,
        {
            if self.nodes[i].kind == CstNodeKind::Error {
                return true;
            }
            i = i + 1;
        }
        false
    }

    pub(crate) fn push(&mut self, kind: CstNodeKind, span: Span, children: Vec<NodeId>) -> (id:
        NodeId)
        requires
            old(self).wf(),
            old(self).nodes@.len() < u32::MAX,
            forall|k: int| 0 <= k < children@.len() ==> (#[trigger] children@[k]).0 < old(self).nodes@.len(),
        ensures
            final(self).wf(),
            id.0 == old(self).nodes@.len(),
            final(self).nodes@ == old(self).nodes@.push(CstNode { id, kind, span, children }),
            final(self).tokens@ == old(self).tokens@,
            final(self).trivia@ == old(self).trivia@,
    {
        let id = NodeId(self.nodes.len() as u32);
        self.nodes.push(CstNode { id, kind, span, children });
        id
    }
}

/// A concrete node retained for source mapping and recovery.
#[derive(Debug, Clone)]
pub struct CstNode {
    pub id: NodeId,
    pub kind: CstNodeKind,
    pub span: Span,
    pub children: Vec<NodeId>,
}

#[derive(Debug, Clone, Copy, PartialEq, Eq, Structural)]
pub enum CstNodeKind {
    Document,
    Object,
    Array,
    Binding,
    TypeDeclaration,
    Value,
    Annotation,
    Expression,
    Error,
}

/// The creation ranks of the AST's nodes, one sequence per arena, and the next
/// rank to hand out.
pub type AstRanks = (Seq<nat>, Seq<nat>, Seq<nat>, Seq<nat>, Seq<nat>, nat);

/// The syntax AST with source-backed fields and indexed child references.
#[derive(Clone)]
pub struct Ast {
    pub(crate) root: Root,
    pub(crate) root_annotations: Vec<AnnotationId>,
    pub(crate) members: Vec<Member>,
    pub(crate) values: Vec<Value>,
    pub(crate) types: Vec<TypeExpr>,
    pub(crate) schemas: Vec<Schema>,
    pub(crate) annotations: Vec<Annotation>,
    pub(crate) ranks: Ghost<AstRanks>,
}

impl Ast {
    pub closed spec fn root_view(&self) -> Root {
        self.root
    }

    pub closed spec fn root_annotations_view(&self) -> Seq<AnnotationId> {
        self.root_annotations@
    }

    pub closed spec fn members_view(&self) -> Seq<Member> {
        self.members@
    }

    pub closed spec fn values_view(&self) -> Seq<Value> {
        self.values@
    }

    pub closed spec fn types_view(&self) -> Seq<TypeExpr> {
        self.types@
    }

    pub closed spec fn schemas_view(&self) -> Seq<Schema> {
        self.schemas@
    }

    pub closed spec fn annotations_view(&self) -> Seq<Annotation> {
        self.annotations@
    }

    /// The members of an object root; none for an array root.
    pub open spec fn root_members(&self) -> Seq<MemberId> {
        match self.root_view() {
            Root::ImplicitObject { members } => members@,
            Root::ExplicitObject { members } => members@,
            Root::Array { .. } => Seq::empty(),
        }
    }

    /// A bound on the depth of every chain of references between nodes.
    pub closed spec fn node_bound(&self) -> nat {
        self.ranks@.5
    }

    pub(crate) open spec fn value_rank(&self, id: ValueId) -> nat {
        self.ranks@.0[id.0 as int]
    }

    pub(crate) open spec fn member_rank(&self, id: MemberId) -> nat {
        self.ranks@.1[id.0 as int]
    }

    pub(crate) open spec fn type_rank(&self, id: TypeId) -> nat {
        self.ranks@.2[id.0 as int]
    }

    pub(crate) open spec fn schema_rank(&self, id: SchemaId) -> nat {
        self.ranks@.3[id.0 as int]
    }

    pub(crate) open spec fn annotation_rank(&self, id: AnnotationId) -> nat {
        self.ranks@.4[id.0 as int]
    }

    pub(crate) open spec fn next_rank(&self) -> nat {
        self.ranks@.5
    }

    /// `id` names a value created before rank `bound`.
    pub(crate) open spec fn value_below(&self, id: ValueId, bound: nat) -> bool {
        id.0 < self.values@.len() && self.value_rank(id) < bound
    }

    pub(crate) open spec fn member_below(&self, id: MemberId, bound: nat) -> bool {
        id.0 < self.members@.len() && self.member_rank(id) < bound
    }

    pub(crate) open spec fn type_below(&self, id: TypeId, bound: nat) -> bool {
        id.0 < self.types@.len() && self.type_rank(id) < bound
    }

    pub(crate) open spec fn schema_below(&self, id: SchemaId, bound: nat) -> bool {
        id.0 < self.schemas@.len() && self.schema_rank(id) < bound
    }

    pub(crate) open spec fn annotation_below(&self, id: AnnotationId, bound: nat) -> bool {
        id.0 < self.annotations@.len() && self.annotation_rank(id) < bound
    }

    pub(crate) open spec fn annotations_below(&self, ids: Seq<AnnotationId>, bound: nat) -> bool {
        forall|k: int| 0 <= k < ids.len() ==> self.annotation_below(#[trigger] ids[k], bound)
    }

    pub(crate) open spec fn values_below(&self, ids: Seq<ValueId>, bound: nat) -> bool {
        forall|k: int| 0 <= k < ids.len() ==> self.value_below(#[trigger] ids[k], bound)
    }

    pub(crate) open spec fn members_below(&self, ids: Seq<MemberId>, bound: nat) -> bool {
        forall|k: int| 0 <= k < ids.len() ==> self.member_below(#[trigger] ids[k], bound)
    }

    pub(crate) open spec fn types_below(&self, ids: Seq<TypeId>, bound: nat) -> bool {
        forall|k: int| 0 <= k < ids.len() ==> self.type_below(#[trigger] ids[k], bound)
    }

    pub(crate) open spec fn opt_type_below(&self, id: Option<TypeId>, bound: nat) -> bool {
        id matches Some(t) ==> self.type_below(t, bound)
    }

    pub(crate) open spec fn opt_value_below(&self, id: Option<ValueId>, bound: nat) -> bool {
        id matches Some(v) ==> self.value_below(v, bound)
    }

    /// Every node that `v` refers to was created before rank `bound`.
    pub(crate) open spec fn value_refs_below(&self, v: Value, bound: nat) -> bool {
        match v {
            Value::Array(a) => self.values_below(a.items@, bound),
            Value::Object(o) => self.members_below(o.members@, bound),
            Value::Schema(s) => self.schema_below(s.schema, bound),
            Value::Expression(e) => match e {
                ExpressionValue::Unary { operand, .. } => self.value_below(operand, bound),
                ExpressionValue::Comparison { left, right, .. } => self.value_below(left, bound)
                    && self.value_below(right, bound),
                ExpressionValue::Group { expression, .. } => self.value_below(expression, bound),
                ExpressionValue::Quantifier { conditions, .. } => self.values_below(
                    conditions@,
                    bound,
                ),
            },
            _ => true,
        }
    }

    pub(crate) open spec fn member_refs_below(&self, m: Member, bound: nat) -> bool {
        match m {
            Member::Binding(b) => {
                &&& self.annotations_below(b.annotations@, bound)
                &&& self.opt_type_below(b.type_annotation, bound)
                &&& self.value_below(b.value, bound)
            },
            Member::TypeDeclaration(d) => {
                &&& self.annotations_below(d.annotations@, bound)
                &&& self.schema_below(d.definition, bound)
            },
            Member::Error(_) => true,
        }
    }

    pub(crate) open spec fn type_refs_below(&self, t: TypeExpr, bound: nat) -> bool {
        match t {
            TypeExpr::Generic { arguments, .. } => self.types_below(arguments@, bound),
            TypeExpr::Schema { schema, .. } => self.schema_below(schema, bound),
            _ => true,
        }
    }

    pub(crate) open spec fn field_refs_below(&self, f: StructField, bound: nat) -> bool {
        &&& self.annotations_below(f.annotations@, bound)
        &&& self.opt_type_below(f.type_annotation, bound)
        &&& self.opt_value_below(f.default_value, bound)
    }

    pub(crate) open spec fn variant_refs_below(&self, v: EnumVariant, bound: nat) -> bool {
        &&& self.annotations_below(v.annotations@, bound)
        &&& self.opt_type_below(v.payload, bound)
    }

    pub(crate) open spec fn schema_refs_below(&self, s: Schema, bound: nat) -> bool {
        &&& forall|k: int|
            0 <= k < s.fields@.len() ==> self.field_refs_below(#[trigger] s.fields@[k], bound)
        &&& forall|k: int|
            0 <= k < s.variants@.len() ==> self.variant_refs_below(#[trigger] s.variants@[k], bound)
    }

    pub(crate) open spec fn argument_refs_below(&self, a: AnnotationArgument, bound: nat) -> bool {
        self.opt_value_below(a.value, bound)
    }

    pub(crate) open spec fn annotation_refs_below(&self, a: Annotation, bound: nat) -> bool {
        forall|k: int|
            0 <= k < a.arguments@.len() ==> self.argument_refs_below(
                #[trigger] a.arguments@[k],
                bound,
            )
    }

    pub(crate) open spec fn root_refs_below(&self, r: Root, bound: nat) -> bool {
        match r {
            Root::ImplicitObject { members } => self.members_below(members@, bound),
            Root::ExplicitObject { members } => self.members_below(members@, bound),
            Root::Array { items } => self.values_below(items@, bound),
        }
    }

    /// Well-formedness: every node refers only to nodes created before it, so
    /// that following references always ends, and each arena is indexable by
    /// a `u32`.
    pub(crate) open spec fn well_formed(&self) -> bool {
        let r = self.ranks@;
        &&& r.0.len() == self.values@.len()
        &&& r.1.len() == self.members@.len()
        &&& r.2.len() == self.types@.len()
        &&& r.3.len() == self.schemas@.len()
        &&& r.4.len() == self.annotations@.len()
        &&& r.5 <= r.0.len() + r.1.len() + r.2.len() + r.3.len() + r.4.len()
        &&& self.values@.len() < u32::MAX
        &&& self.members@.len() < u32::MAX
        &&& self.types@.len() < u32::MAX
        &&& self.schemas@.len() < u32::MAX
        &&& self.annotations@.len() < u32::MAX
        &&& forall|i: int| 0 <= i < r.0.len() ==> #[trigger] r.0[i] < r.5
        &&& forall|i: int| 0 <= i < r.1.len() ==> #[trigger] r.1[i] < r.5
        &&& forall|i: int| 0 <= i < r.2.len() ==> #[trigger] r.2[i] < r.5
        &&& forall|i: int| 0 <= i < r.3.len() ==> #[trigger] r.3[i] < r.5
        &&& forall|i: int| 0 <= i < r.4.len() ==> #[trigger] r.4[i] < r.5
        &&& forall|i: int|
            0 <= i < self.values@.len() ==> self.value_refs_below(#[trigger] self.values@[i], r.0[i])
        &&& forall|i: int|
            0 <= i < self.members@.len() ==> self.member_refs_below(
                #[trigger] self.members@[i],
                r.1[i],
            )
        &&& forall|i: int|
            0 <= i < self.types@.len() ==> self.type_refs_below(#[trigger] self.types@[i], r.2[i])
        &&& forall|i: int|
            0 <= i < self.schemas@.len() ==> self.schema_refs_below(
                #[trigger] self.schemas@[i],
                r.3[i],
            )
        &&& forall|i: int|
            0 <= i < self.annotations@.len() ==> self.annotation_refs_below(
                #[trigger] self.annotations@[i],
                r.4[i],
            )
        &&& self.root_refs_below(self.root, r.5)
        &&& self.annotations_below(self.root_annotations@, r.5)
    }

    /// Well-formedness: every node refers only to nodes created before it.
    pub closed spec fn wf(&self) -> bool {
        self.well_formed()
    }

    /// Every node's raw text is the source text of its span: keys, numbers,
    /// strings, unknown atoms, and the names of builtin and named types.
    pub(crate) open spec fn backed(&self, src: Seq<u8>) -> bool {
        &&& forall|i: int| 0 <= i < self.values@.len() ==> value_backed(src, #[trigger] self.values@[i])
        &&& forall|i: int| 0 <= i < self.members@.len() ==> member_backed(src, #[trigger] self.members@[i])
        &&& forall|i: int| 0 <= i < self.types@.len() ==> type_backed(src, #[trigger] self.types@[i])
        &&& forall|i: int| 0 <= i < self.schemas@.len() ==> schema_backed(src, #[trigger] self.schemas@[i])
        &&& forall|i: int|
            0 <= i < self.annotations@.len() ==> annotation_backed(src, #[trigger] self.annotations@[i])
    }

    /// The AST is backed by the source bytes `src`: every node's raw text is
    /// the source text of its span.
    pub open spec fn source_backed(&self, src: Seq<u8>) -> bool {
        &&& forall|i: int| 0 <= i < self.values_view().len() ==> value_backed(src, #[trigger] self.values_view()[i])
        &&& forall|i: int| 0 <= i < self.members_view().len() ==> member_backed(src, #[trigger] self.members_view()[i])
        &&& forall|i: int| 0 <= i < self.types_view().len() ==> type_backed(src, #[trigger] self.types_view()[i])
        &&& forall|i: int| 0 <= i < self.schemas_view().len() ==> schema_backed(src, #[trigger] self.schemas_view()[i])
        &&& forall|i: int|
            0 <= i < self.annotations_view().len() ==> annotation_backed(src, #[trigger] self.annotations_view()[i])
    }

    /// `self` keeps every node of `old` and its rank, and adds nodes only.
    pub(crate) open spec fn extends(&self, old: Ast) -> bool {
        &&& old.values@.len() <= self.values@.len()
        &&& old.members@.len() <= self.members@.len()
        &&& old.types@.len() <= self.types@.len()
        &&& old.schemas@.len() <= self.schemas@.len()
        &&& old.annotations@.len() <= self.annotations@.len()
        &&& self.values@.subrange(0, old.values@.len() as int) == old.values@
        &&& self.members@.subrange(0, old.members@.len() as int) == old.members@
        &&& self.types@.subrange(0, old.types@.len() as int) == old.types@
        &&& self.schemas@.subrange(0, old.schemas@.len() as int) == old.schemas@
        &&& self.annotations@.subrange(0, old.annotations@.len() as int) == old.annotations@
        &&& self.ranks@.0.subrange(0, old.ranks@.0.len() as int) == old.ranks@.0
        &&& self.ranks@.1.subrange(0, old.ranks@.1.len() as int) == old.ranks@.1
        &&& self.ranks@.2.subrange(0, old.ranks@.2.len() as int) == old.ranks@.2
        &&& self.ranks@.3.subrange(0, old.ranks@.3.len() as int) == old.ranks@.3
        &&& self.ranks@.4.subrange(0, old.ranks@.4.len() as int) == old.ranks@.4
        &&& old.ranks@.0.len() <= self.ranks@.0.len()
        &&& old.ranks@.1.len() <= self.ranks@.1.len()
        &&& old.ranks@.2.len() <= self.ranks@.2.len()
        &&& old.ranks@.3.len() <= self.ranks@.3.len()
        &&& old.ranks@.4.len() <= self.ranks@.4.len()
        &&& old.ranks@.5 <= self.ranks@.5
    }

    pub(crate) fn new(root: Root) -> (ast: Self)
        requires
            root_is_empty(root),
        ensures
            ast.well_formed(),
            ast.root == root,
            ast.values@.len() == 0,
            ast.members@.len() == 0,
            ast.types@.len() == 0,
            ast.schemas@.len() == 0,
            ast.annotations@.len() == 0,
            ast.root_annotations@.len() == 0,
    {
        Self {
            root,
            root_annotations: Vec::new(),
            members: Vec::new(),
            values: Vec::new(),
            types: Vec::new(),
            schemas: Vec::new(),
            annotations: Vec::new(),
            ranks: Ghost((seq![], seq![], seq![], seq![], seq![], 0)),
        }
    }

    pub(crate) fn set_root(&mut self, root: Root)
        requires
            old(self).well_formed(),
            old(self).root_refs_below(root, old(self).next_rank()),
        ensures
            final(self).well_formed(),
            final(self).root == root,
            final(self).root_annotations@ == old(self).root_annotations@,
            final(self).values@ == old(self).values@,
            final(self).members@ == old(self).members@,
            final(self).types@ == old(self).types@,
            final(self).schemas@ == old(self).schemas@,
            final(self).annotations@ == old(self).annotations@,
            final(self).ranks == old(self).ranks,
    {
        self.root = root;
        proof {
            lemma_extends_refl(*old(self));
            assert(self.extends(*old(self)));
            lemma_refs_preserved(*old(self), *self, self.next_rank(), self.next_rank());
            lemma_wf_same_nodes(*old(self), *self);
        }
    }

    pub(crate) fn set_root_annotations(&mut self, root_annotations: Vec<AnnotationId>)
        requires
            old(self).well_formed(),
            old(self).annotations_below(root_annotations@, old(self).next_rank()),
        ensures
            final(self).well_formed(),
            final(self).root == old(self).root,
            final(self).root_annotations@ == root_annotations@,
            final(self).values@ == old(self).values@,
            final(self).members@ == old(self).members@,
            final(self).types@ == old(self).types@,
            final(self).schemas@ == old(self).schemas@,
            final(self).annotations@ == old(self).annotations@,
            final(self).ranks == old(self).ranks,
    {
        self.root_annotations = root_annotations;
        proof {
            lemma_extends_refl(*old(self));
            assert(self.extends(*old(self)));
            lemma_refs_preserved(*old(self), *self, self.next_rank(), self.next_rank());
            lemma_wf_same_nodes(*old(self), *self);
        }
    }

    pub fn root_kind(&self) -> (kind: RootKind)
        ensures
            kind == root_kind_of(self.root_view()),
    {
        self.root.kind()
    }

    pub fn root_annotations(&self) -> (r: &[AnnotationId])
        ensures
            r@ == self.root_annotations_view(),
    {
        self.root_annotations.as_slice()
    }

    pub fn object_members(&self) -> (r: Option<&[MemberId]>)
        ensures
            r matches Some(ms) ==> match self.root_view() {
                Root::ImplicitObject { members } => ms@ == members@,
                Root::ExplicitObject { members } => ms@ == members@,
                Root::Array { .. } => false,
            },
            r is None <==> self.root_view() is Array,
    {
        match &self.root {
            Root::ImplicitObject { members } => Some(members.as_slice()),
            Root::ExplicitObject { members } => Some(members.as_slice()),
            Root::Array { .. } => None,
        }
    }

    pub fn root_array_items(&self) -> (r: Option<&[ValueId]>)
        ensures
            r matches Some(items) ==> self.root_view() matches Root::Array { items: i } && items@ == i@,
            r is None <==> !(self.root_view() is Array),
    {
        match &self.root {
            Root::Array { items } => Some(items.as_slice()),
            Root::ImplicitObject { .. } => None,
            Root::ExplicitObject { .. } => None,
        }
    }

    pub fn member(&self, id: MemberId) -> (r: Option<&Member>)
        ensures
            r is Some <==> id.0 < self.members_view().len(),
            r matches Some(m) ==> *m == self.members_view()[id.0 as int],
    {
        let index = id.0 as usize;
        if index < self.members.len() {
            Some(&self.members[index])
        } else {
            None
        }
    }

    pub fn value(&self, id: ValueId) -> (r: Option<&Value>)
        ensures
            r is Some <==> id.0 < self.values_view().len(),
            r matches Some(v) ==> *v == self.values_view()[id.0 as int],
    {
        let index = id.0 as usize;
        if index < self.values.len() {
            Some(&self.values[index])
        } else {
            None
        }
    }

    pub fn value_kind(&self, id: ValueId) -> (kind: ValueKind)
        ensures
            kind == if id.0 < self.values_view().len() {
                value_kind_of(self.values_view()[id.0 as int])
            } else {
                ValueKind::Error
            },
    {
        match self.value(id) {
            Some(value) => value.kind(),
            None => ValueKind::Error,
        }
    }

    pub fn type_expr(&self, id: TypeId) -> (r: Option<&TypeExpr>)
        ensures
            r is Some <==> id.0 < self.types_view().len(),
            r matches Some(t) ==> *t == self.types_view()[id.0 as int],
    {
        let index = id.0 as usize;
        if index < self.types.len() {
            Some(&self.types[index])
        } else {
            None
        }
    }

    pub fn type_kind(&self, id: TypeId) -> (kind: TypeKind)
        ensures
            kind == if id.0 < self.types_view().len() {
                type_kind_of(self.types_view()[id.0 as int])
            } else {
                TypeKind::Error
            },
    {
        match self.type_expr(id) {
            Some(type_expr) => type_expr.kind(),
            None => TypeKind::Error,
        }
    }

    pub fn schema(&self, id: SchemaId) -> (r: Option<&Schema>)
        ensures
            r is Some <==> id.0 < self.schemas_view().len(),
            r matches Some(s) ==> *s == self.schemas_view()[id.0 as int],
    {
        let index = id.0 as usize;
        if index < self.schemas.len() {
            Some(&self.schemas[index])
        } else {
            None
        }
    }

    pub fn annotation(&self, id: AnnotationId) -> (r: Option<&Annotation>)
        ensures
            r is Some <==> id.0 < self.annotations_view().len(),
            r matches Some(a) ==> *a == self.annotations_view()[id.0 as int],
    {
        let index = id.0 as usize;
        if index < self.annotations.len() {
            Some(&self.annotations[index])
        } else {
            None
        }
    }

    pub fn member_key_text(&self, id: MemberId) -> (r: Option<&str>)
        ensures
            r is Some <==> id.0 < self.members_view().len() && !(self.members_view()[id.0 as int] is Error),
            r matches Some(t) ==> Some(t@) == member_key_of(self.members_view()[id.0 as int]),
    {
        match self.member(id) {
            Some(member) => member.key_text(),
            None => None,
        }
    }

    pub(crate) fn push_member(&mut self, member: Member) -> (id: MemberId)
        requires
            old(self).well_formed(),
            old(self).members@.len() + 1 < u32::MAX,
            old(self).member_refs_below(member, old(self).next_rank()),
        ensures
            final(self).well_formed(),
            final(self).extends(*old(self)),
            id.0 == old(self).members@.len(),
            final(self).members@ == old(self).members@.push(member),
            final(self).values@ == old(self).values@,
            final(self).types@ == old(self).types@,
            final(self).schemas@ == old(self).schemas@,
            final(self).annotations@ == old(self).annotations@,
            final(self).root == old(self).root,
            final(self).root_annotations@ == old(self).root_annotations@,
    {
        let id = MemberId(self.members.len() as u32);
        self.members.push(member);
        let ghost r = self.ranks@;
        self.ranks = Ghost((r.0, r.1.push(r.5), r.2, r.3, r.4, r.5 + 1));
        proof {
            assert(self.values@.subrange(0, old(self).values@.len() as int) =~= old(self).values@);
            assert(self.members@.subrange(0, old(self).members@.len() as int) =~= old(self).members@);
            assert(self.types@.subrange(0, old(self).types@.len() as int) =~= old(self).types@);
            assert(self.schemas@.subrange(0, old(self).schemas@.len() as int) =~= old(self).schemas@);
            assert(self.annotations@.subrange(0, old(self).annotations@.len() as int) =~= old(self).annotations@);
            assert(self.ranks@.0.subrange(0, old(self).ranks@.0.len() as int) =~= old(self).ranks@.0);
            assert(self.ranks@.1.subrange(0, old(self).ranks@.1.len() as int) =~= old(self).ranks@.1);
            assert(self.ranks@.2.subrange(0, old(self).ranks@.2.len() as int) =~= old(self).ranks@.2);
            assert(self.ranks@.3.subrange(0, old(self).ranks@.3.len() as int) =~= old(self).ranks@.3);
            assert(self.ranks@.4.subrange(0, old(self).ranks@.4.len() as int) =~= old(self).ranks@.4);
            lemma_wf_after_push(*old(self), *self);
        }
        id
    }

    pub(crate) fn push_value(&mut self, value: Value) -> (id: ValueId)
        requires
            old(self).well_formed(),
            old(self).values@.len() + 1 < u32::MAX,
            old(self).value_refs_below(value, old(self).next_rank()),
        ensures
            final(self).well_formed(),
            final(self).extends(*old(self)),
            id.0 == old(self).values@.len(),
            final(self).values@ == old(self).values@.push(value),
            final(self).members@ == old(self).members@,
            final(self).types@ == old(self).types@,
            final(self).schemas@ == old(self).schemas@,
            final(self).annotations@ == old(self).annotations@,
            final(self).root == old(self).root,
            final(self).root_annotations@ == old(self).root_annotations@,
    {
        let id = ValueId(self.values.len() as u32);
        self.values.push(value);
        let ghost r = self.ranks@;
        self.ranks = Ghost((r.0.push(r.5), r.1, r.2, r.3, r.4, r.5 + 1));
        proof {
            assert(self.values@.subrange(0, old(self).values@.len() as int) =~= old(self).values@);
            assert(self.members@.subrange(0, old(self).members@.len() as int) =~= old(self).members@);
            assert(self.types@.subrange(0, old(self).types@.len() as int) =~= old(self).types@);
            assert(self.schemas@.subrange(0, old(self).schemas@.len() as int) =~= old(self).schemas@);
            assert(self.annotations@.subrange(0, old(self).annotations@.len() as int) =~= old(self).annotations@);
            assert(self.ranks@.0.subrange(0, old(self).ranks@.0.len() as int) =~= old(self).ranks@.0);
            assert(self.ranks@.1.subrange(0, old(self).ranks@.1.len() as int) =~= old(self).ranks@.1);
            assert(self.ranks@.2.subrange(0, old(self).ranks@.2.len() as int) =~= old(self).ranks@.2);
            assert(self.ranks@.3.subrange(0, old(self).ranks@.3.len() as int) =~= old(self).ranks@.3);
            assert(self.ranks@.4.subrange(0, old(self).ranks@.4.len() as int) =~= old(self).ranks@.4);
            lemma_wf_after_push(*old(self), *self);
        }
        id
    }

    pub(crate) fn push_type(&mut self, type_expr: TypeExpr) -> (id: TypeId)
        requires
            old(self).well_formed(),
            old(self).types@.len() + 1 < u32::MAX,
            old(self).type_refs_below(type_expr, old(self).next_rank()),
        ensures
            final(self).well_formed(),
            final(self).extends(*old(self)),
            id.0 == old(self).types@.len(),
            final(self).types@ == old(self).types@.push(type_expr),
            final(self).values@ == old(self).values@,
            final(self).members@ == old(self).members@,
            final(self).schemas@ == old(self).schemas@,
            final(self).annotations@ == old(self).annotations@,
            final(self).root == old(self).root,
            final(self).root_annotations@ == old(self).root_annotations@,
    {
        let id = TypeId(self.types.len() as u32);
        self.types.push(type_expr);
        let ghost r = self.ranks@;
        self.ranks = Ghost((r.0, r.1, r.2.push(r.5), r.3, r.4, r.5 + 1));
        proof {
            assert(self.values@.subrange(0, old(self).values@.len() as int) =~= old(self).values@);
            assert(self.members@.subrange(0, old(self).members@.len() as int) =~= old(self).members@);
            assert(self.types@.subrange(0, old(self).types@.len() as int) =~= old(self).types@);
            assert(self.schemas@.subrange(0, old(self).schemas@.len() as int) =~= old(self).schemas@);
            assert(self.annotations@.subrange(0, old(self).annotations@.len() as int) =~= old(self).annotations@);
            assert(self.ranks@.0.subrange(0, old(self).ranks@.0.len() as int) =~= old(self).ranks@.0);
            assert(self.ranks@.1.subrange(0, old(self).ranks@.1.len() as int) =~= old(self).ranks@.1);
            assert(self.ranks@.2.subrange(0, old(self).ranks@.2.len() as int) =~= old(self).ranks@.2);
            assert(self.ranks@.3.subrange(0, old(self).ranks@.3.len() as int) =~= old(self).ranks@.3);
            assert(self.ranks@.4.subrange(0, old(self).ranks@.4.len() as int) =~= old(self).ranks@.4);
            lemma_wf_after_push(*old(self), *self);
        }
        id
    }

    pub(crate) fn push_schema(&mut self, schema: Schema) -> (id: SchemaId)
        requires
            old(self).well_formed(),
            old(self).schemas@.len() + 1 < u32::MAX,
            old(self).schema_refs_below(schema, old(self).next_rank()),
        ensures
            final(self).well_formed(),
            final(self).extends(*old(self)),
            id.0 == old(self).schemas@.len(),
            final(self).schemas@ == old(self).schemas@.push(schema),
            final(self).values@ == old(self).values@,
            final(self).members@ == old(self).members@,
            final(self).types@ == old(self).types@,
            final(self).annotations@ == old(self).annotations@,
            final(self).root == old(self).root,
            final(self).root_annotations@ == old(self).root_annotations@,
    {
        let id = SchemaId(self.schemas.len() as u32);
        self.schemas.push(schema);
        let ghost r = self.ranks@;
        self.ranks = Ghost((r.0, r.1, r.2, r.3.push(r.5), r.4, r.5 + 1));
        proof {
            assert(self.values@.subrange(0, old(self).values@.len() as int) =~= old(self).values@);
            assert(self.members@.subrange(0, old(self).members@.len() as int) =~= old(self).members@);
            assert(self.types@.subrange(0, old(self).types@.len() as int) =~= old(self).types@);
            assert(self.schemas@.subrange(0, old(self).schemas@.len() as int) =~= old(self).schemas@);
            assert(self.annotations@.subrange(0, old(self).annotations@.len() as int) =~= old(self).annotations@);
            assert(self.ranks@.0.subrange(0, old(self).ranks@.0.len() as int) =~= old(self).ranks@.0);
            assert(self.ranks@.1.subrange(0, old(self).ranks@.1.len() as int) =~= old(self).ranks@.1);
            assert(self.ranks@.2.subrange(0, old(self).ranks@.2.len() as int) =~= old(self).ranks@.2);
            assert(self.ranks@.3.subrange(0, old(self).ranks@.3.len() as int) =~= old(self).ranks@.3);
            assert(self.ranks@.4.subrange(0, old(self).ranks@.4.len() as int) =~= old(self).ranks@.4);
            lemma_wf_after_push(*old(self), *self);
        }
        id
    }

    pub(crate) fn push_annotation(&mut self, annotation: Annotation) -> (id: AnnotationId)
        requires
            old(self).well_formed(),
            old(self).annotations@.len() + 1 < u32::MAX,
            old(self).annotation_refs_below(annotation, old(self).next_rank()),
        ensures
            final(self).well_formed(),
            final(self).extends(*old(self)),
            id.0 == old(self).annotations@.len(),
            final(self).annotations@ == old(self).annotations@.push(annotation),
            final(self).values@ == old(self).values@,
            final(self).members@ == old(self).members@,
            final(self).types@ == old(self).types@,
            final(self).schemas@ == old(self).schemas@,
            final(self).root == old(self).root,
            final(self).root_annotations@ == old(self).root_annotations@,
    {
        let id = AnnotationId(self.annotations.len() as u32);
        self.annotations.push(annotation);
        let ghost r = self.ranks@;
        self.ranks = Ghost((r.0, r.1, r.2, r.3, r.4.push(r.5), r.5 + 1));
        proof {
            assert(self.values@.subrange(0, old(self).values@.len() as int) =~= old(self).values@);
            assert(self.members@.subrange(0, old(self).members@.len() as int) =~= old(self).members@);
            assert(self.types@.subrange(0, old(self).types@.len() as int) =~= old(self).types@);
            assert(self.schemas@.subrange(0, old(self).schemas@.len() as int) =~= old(self).schemas@);
            assert(self.annotations@.subrange(0, old(self).annotations@.len() as int) =~= old(self).annotations@);
            assert(self.ranks@.0.subrange(0, old(self).ranks@.0.len() as int) =~= old(self).ranks@.0);
            assert(self.ranks@.1.subrange(0, old(self).ranks@.1.len() as int) =~= old(self).ranks@.1);
            assert(self.ranks@.2.subrange(0, old(self).ranks@.2.len() as int) =~= old(self).ranks@.2);
            assert(self.ranks@.3.subrange(0, old(self).ranks@.3.len() as int) =~= old(self).ranks@.3);
            assert(self.ranks@.4.subrange(0, old(self).ranks@.4.len() as int) =~= old(self).ranks@.4);
            lemma_wf_after_push(*old(self), *self);
        }
        id
    }
}

/// The public well-formedness of an AST is its crate-level definition.
pub(crate) proof fn lemma_wf_reveal(a: Ast)
    ensures
        a.wf() == a.well_formed(),
        a.root_view() == a.root,
        a.root_annotations_view() == a.root_annotations@,
        a.members_view() == a.members@,
        a.values_view() == a.values@,
        a.types_view() == a.types@,
        a.schemas_view() == a.schemas@,
        a.annotations_view() == a.annotations@,
        a.node_bound() == a.ranks@.5,
{
}

/// An AST backed by the source over its arenas is backed in its public view.
pub(crate) proof fn lemma_backed_reveal(a: Ast, src: Seq<u8>)
    requires
        a.backed(src),
    ensures
        a.source_backed(src),
{
    lemma_wf_reveal(a);
}

/// The public view of a document's source is its stored text.
pub(crate) proof fn lemma_source_reveal(d: Document)
    ensures
        d.source_view() == d.source@,
{
}

/// An AST with the nodes and ranks of a well-formed one, and a root and root
/// annotations that refer below its next rank, is well-formed.
proof fn lemma_wf_same_nodes(old: Ast, new: Ast)
    requires
        old.well_formed(),
        new.extends(old),
        new.values@ == old.values@,
        new.members@ == old.members@,
        new.types@ == old.types@,
        new.schemas@ == old.schemas@,
        new.annotations@ == old.annotations@,
        new.ranks == old.ranks,
        old.root_refs_below(new.root, old.ranks@.5),
        old.annotations_below(new.root_annotations@, old.ranks@.5),
    ensures
        new.well_formed(),
{
    let r = new.ranks@;
    lemma_refs_preserved(old, new, r.5, r.5);
    assert forall|i: int| 0 <= i < new.values@.len() implies new.value_refs_below(#[trigger] new.values@[i], r.0[i]) by {
        lemma_refs_preserved(old, new, r.0[i], r.0[i]);
    }
    assert forall|i: int| 0 <= i < new.members@.len() implies new.member_refs_below(#[trigger] new.members@[i], r.1[i]) by {
        lemma_refs_preserved(old, new, r.1[i], r.1[i]);
    }
    assert forall|i: int| 0 <= i < new.types@.len() implies new.type_refs_below(#[trigger] new.types@[i], r.2[i]) by {
        lemma_refs_preserved(old, new, r.2[i], r.2[i]);
    }
    assert forall|i: int| 0 <= i < new.schemas@.len() implies new.schema_refs_below(#[trigger] new.schemas@[i], r.3[i]) by {
        lemma_refs_preserved(old, new, r.3[i], r.3[i]);
    }
    assert forall|i: int| 0 <= i < new.annotations@.len() implies new.annotation_refs_below(#[trigger] new.annotations@[i], r.4[i]) by {
        lemma_refs_preserved(old, new, r.4[i], r.4[i]);
    }
}

/// An AST extends itself.
pub(crate) proof fn lemma_extends_refl(a: Ast)
    ensures
        a.extends(a),
{
    assert(a.values@.subrange(0, a.values@.len() as int) =~= a.values@);
    assert(a.members@.subrange(0, a.members@.len() as int) =~= a.members@);
    assert(a.types@.subrange(0, a.types@.len() as int) =~= a.types@);
    assert(a.schemas@.subrange(0, a.schemas@.len() as int) =~= a.schemas@);
    assert(a.annotations@.subrange(0, a.annotations@.len() as int) =~= a.annotations@);
    assert(a.ranks@.0.subrange(0, a.ranks@.0.len() as int) =~= a.ranks@.0);
    assert(a.ranks@.1.subrange(0, a.ranks@.1.len() as int) =~= a.ranks@.1);
    assert(a.ranks@.2.subrange(0, a.ranks@.2.len() as int) =~= a.ranks@.2);
    assert(a.ranks@.3.subrange(0, a.ranks@.3.len() as int) =~= a.ranks@.3);
    assert(a.ranks@.4.subrange(0, a.ranks@.4.len() as int) =~= a.ranks@.4);
}

/// Extension is transitive.
pub(crate) proof fn lemma_extends_trans(a: Ast, b: Ast, c: Ast)
    requires
        b.extends(a),
        c.extends(b),
    ensures
        c.extends(a),
{
    assert(c.values@.subrange(0, a.values@.len() as int) =~= c.values@.subrange(0, b.values@.len() as int).subrange(0, a.values@.len() as int));
    assert(c.members@.subrange(0, a.members@.len() as int) =~= c.members@.subrange(0, b.members@.len() as int).subrange(0, a.members@.len() as int));
    assert(c.types@.subrange(0, a.types@.len() as int) =~= c.types@.subrange(0, b.types@.len() as int).subrange(0, a.types@.len() as int));
    assert(c.schemas@.subrange(0, a.schemas@.len() as int) =~= c.schemas@.subrange(0, b.schemas@.len() as int).subrange(0, a.schemas@.len() as int));
    assert(c.annotations@.subrange(0, a.annotations@.len() as int) =~= c.annotations@.subrange(0, b.annotations@.len() as int).subrange(0, a.annotations@.len() as int));
    assert(c.ranks@.0.subrange(0, a.ranks@.0.len() as int) =~= c.ranks@.0.subrange(0, b.ranks@.0.len() as int).subrange(0, a.ranks@.0.len() as int));
    assert(c.ranks@.1.subrange(0, a.ranks@.1.len() as int) =~= c.ranks@.1.subrange(0, b.ranks@.1.len() as int).subrange(0, a.ranks@.1.len() as int));
    assert(c.ranks@.2.subrange(0, a.ranks@.2.len() as int) =~= c.ranks@.2.subrange(0, b.ranks@.2.len() as int).subrange(0, a.ranks@.2.len() as int));
    assert(c.ranks@.3.subrange(0, a.ranks@.3.len() as int) =~= c.ranks@.3.subrange(0, b.ranks@.3.len() as int).subrange(0, a.ranks@.3.len() as int));
    assert(c.ranks@.4.subrange(0, a.ranks@.4.len() as int) =~= c.ranks@.4.subrange(0, b.ranks@.4.len() as int).subrange(0, a.ranks@.4.len() as int));
}

/// In a well-formed AST, every node that exists lies below the next rank.
pub(crate) proof fn lemma_valid_below(a: Ast)
    requires
        a.well_formed(),
    ensures
        forall|id: ValueId| id.0 < a.values@.len() ==> #[trigger] a.value_below(id, a.next_rank()),
        forall|id: MemberId| id.0 < a.members@.len() ==> #[trigger] a.member_below(id, a.next_rank()),
        forall|id: TypeId| id.0 < a.types@.len() ==> #[trigger] a.type_below(id, a.next_rank()),
        forall|id: SchemaId| id.0 < a.schemas@.len() ==> #[trigger] a.schema_below(id, a.next_rank()),
        forall|id: AnnotationId| id.0 < a.annotations@.len() ==> #[trigger] a.annotation_below(
            id,
            a.next_rank(),
        ),
{
    assert forall|id: ValueId| id.0 < a.values@.len() implies #[trigger] a.value_below(id, a.next_rank()) by {
        assert(a.ranks@.0[id.0 as int] < a.ranks@.5);
    }
    assert forall|id: MemberId| id.0 < a.members@.len() implies #[trigger] a.member_below(id, a.next_rank()) by {
        assert(a.ranks@.1[id.0 as int] < a.ranks@.5);
    }
    assert forall|id: TypeId| id.0 < a.types@.len() implies #[trigger] a.type_below(id, a.next_rank()) by {
        assert(a.ranks@.2[id.0 as int] < a.ranks@.5);
    }
    assert forall|id: SchemaId| id.0 < a.schemas@.len() implies #[trigger] a.schema_below(id, a.next_rank()) by {
        assert(a.ranks@.3[id.0 as int] < a.ranks@.5);
    }
    assert forall|id: AnnotationId| id.0 < a.annotations@.len() implies #[trigger] a.annotation_below(id, a.next_rank()) by {
        assert(a.ranks@.4[id.0 as int] < a.ranks@.5);
    }
}

/// The source text that `span` covers in the bytes `src`.
pub open spec fn span_text(src: Seq<u8>, span: Span) -> Seq<char> {
    text_of(src, span.start as int, span.end as int)
}

/// `span` is a range of the bytes `src`.
pub open spec fn span_in(src: Seq<u8>, span: Span) -> bool {
    span.start <= span.end <= src.len()
}

/// Both ends of `span` are positions of the bytes `src`.
pub open spec fn span_within(src: Seq<u8>, span: Span) -> bool {
    span.start <= src.len() && span.end <= src.len()
}

/// `raw` is the source text of `span`, a range of the bytes `src`.
pub open spec fn spans_text(src: Seq<u8>, span: Span, raw: Seq<char>) -> bool {
    span_in(src, span) && raw == span_text(src, span)
}

/// A key is the source text of its span, or empty where a name was missing;
/// its span is a range of the source.
pub open spec fn key_backed(src: Seq<u8>, k: Key) -> bool {
    span_in(src, k.span) && (k.raw@.len() == 0 || k.raw@ == span_text(src, k.span))
}

/// A value's span lies in the source, and a number, string or unknown
/// atom is the source text of its span; a string's text starts with a
/// backtick, and an unknown atom's does not.
pub open spec fn value_backed(src: Seq<u8>, v: Value) -> bool {
    &&& span_within(src, value_span_of(v))
    &&& match v {
        Value::Number { raw, span } => raw@ == span_text(src, span),
        Value::String(s) => {
            &&& s.raw@ == span_text(src, s.span)
            &&& s.span.start < s.span.end
            &&& src[s.span.start as int] == 0x60u8
            &&& s.parts@ == crate::parser::values::string_parts_spec(src, s.span)
        },
        Value::Unknown(u) => {
            &&& u.raw@ == span_text(src, u.span)
            &&& u.span.start < u.span.end
            &&& src[u.span.start as int] != 0x60u8
        },
        _ => true,
    }
}

/// A member's span lies in the source, and the key of a binding, or
/// the name of a type declaration, is backed.
pub open spec fn member_backed(src: Seq<u8>, m: Member) -> bool {
    match m {
        Member::Binding(b) => span_within(src, b.span) && key_backed(src, b.key),
        Member::TypeDeclaration(d) => span_within(src, d.span) && key_backed(src, d.name),
        Member::Error(e) => span_within(src, e.span),
    }
}

/// A type's span lies in the source, and a builtin type's name, or a
/// named type's path, is the source text of its span.
pub open spec fn type_backed(src: Seq<u8>, t: TypeExpr) -> bool {
    &&& span_within(src, type_span_of(t))
    &&& match t {
        TypeExpr::Builtin { name, span } => name@ == span_text(src, span),
        TypeExpr::Named { path, span } => path@ == span_text(src, span),
        _ => true,
    }
}

/// A schema's span, and those of its fields and variants, lie in the source, and the keys of its fields and the names of its variants are
/// backed.
pub open spec fn schema_backed(src: Seq<u8>, s: Schema) -> bool {
    &&& span_within(src, s.span)
    &&& forall|k: int|
        0 <= k < s.fields@.len() ==> span_within(src, (#[trigger] s.fields@[k]).span) && key_backed(
            src,
            s.fields@[k].key,
        )
    &&& forall|k: int|
        0 <= k < s.variants@.len() ==> span_within(src, (#[trigger] s.variants@[k]).span) && key_backed(
            src,
            s.variants@[k].name,
        )
}

/// An annotation's span, and those of its arguments, lie in the source, and the keys of its arguments are backed.
pub open spec fn annotation_backed(src: Seq<u8>, a: Annotation) -> bool {
    &&& span_within(src, a.span)
    &&& forall|k: int|
        0 <= k < a.arguments@.len() ==> span_within(src, (#[trigger] a.arguments@[k]).span) && (
        a.arguments@[k].key matches Some(key) ==> key_backed(src, key))
}

/// A root that refers to nothing.
pub open spec fn root_is_empty(r: Root) -> bool {
    match r {
        Root::ImplicitObject { members } => members@.len() == 0,
        Root::ExplicitObject { members } => members@.len() == 0,
        Root::Array { items } => items@.len() == 0,
    }
}

/// Every reference that holds below rank `b` in `old` holds in `new`, which
/// keeps `old`'s nodes and ranks.
pub(crate) proof fn lemma_below_preserved(old: Ast, new: Ast, b: nat)
    requires
        old.well_formed(),
        new.extends(old),
    ensures
        forall|id: ValueId| old.value_below(id, b) ==> #[trigger] new.value_below(id, b),
        forall|id: MemberId| old.member_below(id, b) ==> #[trigger] new.member_below(id, b),
        forall|id: TypeId| old.type_below(id, b) ==> #[trigger] new.type_below(id, b),
        forall|id: SchemaId| old.schema_below(id, b) ==> #[trigger] new.schema_below(id, b),
        forall|id: AnnotationId| old.annotation_below(id, b) ==> #[trigger] new.annotation_below(
            id,
            b,
        ),
{
    assert forall|id: ValueId| old.value_below(id, b) implies #[trigger] new.value_below(id, b) by {
        assert(new.ranks@.0.subrange(0, old.ranks@.0.len() as int)[id.0 as int] == old.ranks@.0[id.0 as int]);
    }
    assert forall|id: MemberId| old.member_below(id, b) implies #[trigger] new.member_below(id, b) by {
        assert(new.ranks@.1.subrange(0, old.ranks@.1.len() as int)[id.0 as int] == old.ranks@.1[id.0 as int]);
    }
    assert forall|id: TypeId| old.type_below(id, b) implies #[trigger] new.type_below(id, b) by {
        assert(new.ranks@.2.subrange(0, old.ranks@.2.len() as int)[id.0 as int] == old.ranks@.2[id.0 as int]);
    }
    assert forall|id: SchemaId| old.schema_below(id, b) implies #[trigger] new.schema_below(id, b) by {
        assert(new.ranks@.3.subrange(0, old.ranks@.3.len() as int)[id.0 as int] == old.ranks@.3[id.0 as int]);
    }
    assert forall|id: AnnotationId| old.annotation_below(id, b) implies #[trigger] new.annotation_below(
        id,
        b,
    ) by {
        assert(new.ranks@.4.subrange(0, old.ranks@.4.len() as int)[id.0 as int] == old.ranks@.4[id.0 as int]);
    }
}

/// What refers below rank `b` in `old` refers below any rank `c >= b` in
/// `new`, which keeps `old`'s nodes and ranks.
pub(crate) proof fn lemma_refs_preserved(old: Ast, new: Ast, b: nat, c: nat)
    requires
        old.well_formed(),
        new.extends(old),
        b <= c,
    ensures
        forall|v: Value| old.value_refs_below(v, b) ==> #[trigger] new.value_refs_below(v, c),
        forall|m: Member| old.member_refs_below(m, b) ==> #[trigger] new.member_refs_below(m, c),
        forall|t: TypeExpr| old.type_refs_below(t, b) ==> #[trigger] new.type_refs_below(t, c),
        forall|s: Schema| old.schema_refs_below(s, b) ==> #[trigger] new.schema_refs_below(s, c),
        forall|a: Annotation| old.annotation_refs_below(a, b) ==> #[trigger] new.annotation_refs_below(
            a,
            c,
        ),
        forall|r: Root| old.root_refs_below(r, b) ==> #[trigger] new.root_refs_below(r, c),
        forall|ids: Seq<AnnotationId>| old.annotations_below(ids, b) ==> #[trigger] new.annotations_below(
            ids,
            c,
        ),
{
    lemma_below_preserved(old, new, b);
    assert forall|v: Value| old.value_refs_below(v, b) implies #[trigger] new.value_refs_below(v, c) by {
        match v {
            Value::Array(a) => {
                assert forall|k: int| 0 <= k < a.items@.len() implies new.value_below(#[trigger] a.items@[k], c) by {
                    assert(old.value_below(a.items@[k], b));
                }
            },
            Value::Object(o) => {
                assert forall|k: int| 0 <= k < o.members@.len() implies new.member_below(#[trigger] o.members@[k], c) by {
                    assert(old.member_below(o.members@[k], b));
                }
            },
            Value::Expression(e) => {
                match e {
                    ExpressionValue::Quantifier { conditions, .. } => {
                        assert forall|k: int| 0 <= k < conditions@.len() implies new.value_below(#[trigger] conditions@[k], c) by {
                            assert(old.value_below(conditions@[k], b));
                        }
                    },
                    _ => {},
                }
            },
            _ => {},
        }
    }
    assert forall|ids: Seq<AnnotationId>| old.annotations_below(ids, b) implies #[trigger] new.annotations_below(ids, c) by {
        assert forall|k: int| 0 <= k < ids.len() implies new.annotation_below(#[trigger] ids[k], c) by {
            assert(old.annotation_below(ids[k], b));
        }
    }
    assert forall|m: Member| old.member_refs_below(m, b) implies #[trigger] new.member_refs_below(m, c) by {
        match m {
            Member::Binding(x) => {
                assert(old.annotations_below(x.annotations@, b));
            },
            Member::TypeDeclaration(x) => {
                assert(old.annotations_below(x.annotations@, b));
            },
            _ => {},
        }
    }
    assert forall|t: TypeExpr| old.type_refs_below(t, b) implies #[trigger] new.type_refs_below(t, c) by {
        match t {
            TypeExpr::Generic { arguments, .. } => {
                assert forall|k: int| 0 <= k < arguments@.len() implies new.type_below(#[trigger] arguments@[k], c) by {
                    assert(old.type_below(arguments@[k], b));
                }
            },
            _ => {},
        }
    }
    assert forall|s: Schema| old.schema_refs_below(s, b) implies #[trigger] new.schema_refs_below(s, c) by {
        assert forall|k: int| 0 <= k < s.fields@.len() implies new.field_refs_below(#[trigger] s.fields@[k], c) by {
            assert(old.field_refs_below(s.fields@[k], b));
            assert(old.annotations_below(s.fields@[k].annotations@, b));
        }
        assert forall|k: int| 0 <= k < s.variants@.len() implies new.variant_refs_below(#[trigger] s.variants@[k], c) by {
            assert(old.variant_refs_below(s.variants@[k], b));
            assert(old.annotations_below(s.variants@[k].annotations@, b));
        }
    }
    assert forall|a: Annotation| old.annotation_refs_below(a, b) implies #[trigger] new.annotation_refs_below(a, c) by {
        assert forall|k: int| 0 <= k < a.arguments@.len() implies new.argument_refs_below(#[trigger] a.arguments@[k], c) by {
            assert(old.argument_refs_below(a.arguments@[k], b));
        }
    }
    assert forall|r: Root| old.root_refs_below(r, b) implies #[trigger] new.root_refs_below(r, c) by {
        match r {
            Root::ImplicitObject { members } => {
                assert forall|k: int| 0 <= k < members@.len() implies new.member_below(#[trigger] members@[k], c) by {
                    assert(old.member_below(members@[k], b));
                }
            },
            Root::ExplicitObject { members } => {
                assert forall|k: int| 0 <= k < members@.len() implies new.member_below(#[trigger] members@[k], c) by {
                    assert(old.member_below(members@[k], b));
                }
            },
            Root::Array { items } => {
                assert forall|k: int| 0 <= k < items@.len() implies new.value_below(#[trigger] items@[k], c) by {
                    assert(old.value_below(items@[k], b));
                }
            },
        }
    }
}

/// Adding one node whose references lie below the next rank keeps the AST
/// well-formed.
proof fn lemma_wf_after_push(old: Ast, new: Ast)
    requires
        old.well_formed(),
        new.extends(old),
        new.root == old.root,
        new.root_annotations@ == old.root_annotations@,
        new.ranks@.5 == old.ranks@.5 + 1,
        new.ranks@.0.len() == new.values@.len(),
        new.ranks@.1.len() == new.members@.len(),
        new.ranks@.2.len() == new.types@.len(),
        new.ranks@.3.len() == new.schemas@.len(),
        new.ranks@.4.len() == new.annotations@.len(),
        new.values@.len() < u32::MAX,
        new.members@.len() < u32::MAX,
        new.types@.len() < u32::MAX,
        new.schemas@.len() < u32::MAX,
        new.annotations@.len() < u32::MAX,
        new.values@.len() <= old.values@.len() + 1,
        new.members@.len() <= old.members@.len() + 1,
        new.types@.len() <= old.types@.len() + 1,
        new.schemas@.len() <= old.schemas@.len() + 1,
        new.annotations@.len() <= old.annotations@.len() + 1,
        new.values@.len() + new.members@.len() + new.types@.len() + new.schemas@.len()
            + new.annotations@.len() == old.values@.len() + old.members@.len() + old.types@.len()
            + old.schemas@.len() + old.annotations@.len() + 1,
        new.values@.len() > old.values@.len() ==> new.ranks@.0.last() == old.ranks@.5
            && old.value_refs_below(new.values@.last(), old.ranks@.5),
        new.members@.len() > old.members@.len() ==> new.ranks@.1.last() == old.ranks@.5
            && old.member_refs_below(new.members@.last(), old.ranks@.5),
        new.types@.len() > old.types@.len() ==> new.ranks@.2.last() == old.ranks@.5
            && old.type_refs_below(new.types@.last(), old.ranks@.5),
        new.schemas@.len() > old.schemas@.len() ==> new.ranks@.3.last() == old.ranks@.5
            && old.schema_refs_below(new.schemas@.last(), old.ranks@.5),
        new.annotations@.len() > old.annotations@.len() ==> new.ranks@.4.last() == old.ranks@.5
            && old.annotation_refs_below(new.annotations@.last(), old.ranks@.5),
    ensures
        new.well_formed(),
{
    let r = new.ranks@;
    let o = old.ranks@;
    assert forall|i: int| 0 <= i < new.values@.len() implies new.value_refs_below(#[trigger] new.values@[i], r.0[i]) by {
        lemma_refs_preserved(old, new, if i < old.values@.len() { o.0[i] } else { o.5 }, r.0[i]);
        if i < old.values@.len() {
            assert(new.values@.subrange(0, old.values@.len() as int)[i] == old.values@[i]);
            assert(r.0.subrange(0, o.0.len() as int)[i] == o.0[i]);
        }
    }
    assert forall|i: int| 0 <= i < new.members@.len() implies new.member_refs_below(#[trigger] new.members@[i], r.1[i]) by {
        lemma_refs_preserved(old, new, if i < old.members@.len() { o.1[i] } else { o.5 }, r.1[i]);
        if i < old.members@.len() {
            assert(new.members@.subrange(0, old.members@.len() as int)[i] == old.members@[i]);
            assert(r.1.subrange(0, o.1.len() as int)[i] == o.1[i]);
        }
    }
    assert forall|i: int| 0 <= i < new.types@.len() implies new.type_refs_below(#[trigger] new.types@[i], r.2[i]) by {
        lemma_refs_preserved(old, new, if i < old.types@.len() { o.2[i] } else { o.5 }, r.2[i]);
        if i < old.types@.len() {
            assert(new.types@.subrange(0, old.types@.len() as int)[i] == old.types@[i]);
            assert(r.2.subrange(0, o.2.len() as int)[i] == o.2[i]);
        }
    }
    assert forall|i: int| 0 <= i < new.schemas@.len() implies new.schema_refs_below(#[trigger] new.schemas@[i], r.3[i]) by {
        lemma_refs_preserved(old, new, if i < old.schemas@.len() { o.3[i] } else { o.5 }, r.3[i]);
        if i < old.schemas@.len() {
            assert(new.schemas@.subrange(0, old.schemas@.len() as int)[i] == old.schemas@[i]);
            assert(r.3.subrange(0, o.3.len() as int)[i] == o.3[i]);
        }
    }
    assert forall|i: int| 0 <= i < new.annotations@.len() implies new.annotation_refs_below(#[trigger] new.annotations@[i], r.4[i]) by {
        lemma_refs_preserved(old, new, if i < old.annotations@.len() { o.4[i] } else { o.5 }, r.4[i]);
        if i < old.annotations@.len() {
            assert(new.annotations@.subrange(0, old.annotations@.len() as int)[i] == old.annotations@[i]);
            assert(r.4.subrange(0, o.4.len() as int)[i] == o.4[i]);
        }
    }
    assert forall|i: int| 0 <= i < r.0.len() implies #[trigger] r.0[i] < r.5 by {
        if i < o.0.len() {
            assert(r.0.subrange(0, o.0.len() as int)[i] == o.0[i]);
        }
    }
    assert forall|i: int| 0 <= i < r.1.len() implies #[trigger] r.1[i] < r.5 by {
        if i < o.1.len() {
            assert(r.1.subrange(0, o.1.len() as int)[i] == o.1[i]);
        }
    }
    assert forall|i: int| 0 <= i < r.2.len() implies #[trigger] r.2[i] < r.5 by {
        if i < o.2.len() {
            assert(r.2.subrange(0, o.2.len() as int)[i] == o.2[i]);
        }
    }
    assert forall|i: int| 0 <= i < r.3.len() implies #[trigger] r.3[i] < r.5 by {
        if i < o.3.len() {
            assert(r.3.subrange(0, o.3.len() as int)[i] == o.3[i]);
        }
    }
    assert forall|i: int| 0 <= i < r.4.len() implies #[trigger] r.4[i] < r.5 by {
        if i < o.4.len() {
            assert(r.4.subrange(0, o.4.len() as int)[i] == o.4[i]);
        }
    }
    lemma_refs_preserved(old, new, o.5, r.5);
}

#[derive(Debug, Clone)]
pub enum Root {
    ImplicitObject { members: Vec<MemberId> },
    ExplicitObject { members: Vec<MemberId> },
    Array { items: Vec<ValueId> },
}

pub open spec fn root_kind_of(r: Root) -> RootKind {
    match r {
        Root::ImplicitObject { .. } => RootKind::ImplicitObject,
        Root::ExplicitObject { .. } => RootKind::ExplicitObject,
        Root::Array { .. } => RootKind::Array,
    }
}

impl Root {
    fn kind(&self) -> (kind: RootKind)
        ensures
            kind == root_kind_of(*self),
    {
        match self {
            Self::ImplicitObject { .. } => RootKind::ImplicitObject,
            Self::ExplicitObject { .. } => RootKind::ExplicitObject,
            Self::Array { .. } => RootKind::Array,
        }
    }
}

#[derive(Debug, Clone, Copy, PartialEq, Eq, Structural)]
pub enum RootKind {
    ImplicitObject,
    ExplicitObject,
    Array,
}

#[derive(Debug, Clone)]
pub enum Member {
    Binding(Binding),
    TypeDeclaration(TypeDeclaration),
    Error(ErrorNode),
}

/// The key text of a member: a binding's key or a declaration's name.
pub open spec fn member_key_of(m: Member) -> Option<Seq<char>> {
    match m {
        Member::Binding(b) => Some(b.key.raw@),
        Member::TypeDeclaration(d) => Some(d.name.raw@),
        Member::Error(_) => None,
    }
}

impl Member {
    pub fn binding(&self) -> (r: Option<&Binding>)
        ensures
            r is Some <==> self is Binding,
            r matches Some(b) ==> self matches Member::Binding(x) && *b == x,
    {
        match self {
            Self::Binding(binding) => Some(binding),
            Self::TypeDeclaration(_) => None,
            Self::Error(_) => None,
        }
    }

    pub fn type_declaration(&self) -> (r: Option<&TypeDeclaration>)
        ensures
            r is Some <==> self is TypeDeclaration,
            r matches Some(d) ==> self matches Member::TypeDeclaration(x) && *d == x,
    {
        match self {
            Self::TypeDeclaration(declaration) => Some(declaration),
            Self::Binding(_) => None,
            Self::Error(_) => None,
        }
    }

    fn key_text(&self) -> (r: Option<&str>)
        ensures
            r is Some <==> !(self is Error),
            r matches Some(t) ==> Some(t@) == member_key_of(*self),
    {
        match self {
            Self::Binding(binding) => Some(binding.key.raw.as_str()),
            Self::TypeDeclaration(declaration) => Some(declaration.name.raw.as_str()),
            Self::Error(_) => None,
        }
    }
}

#[derive(Debug, Clone)]
pub struct Binding {
    pub annotations: Vec<AnnotationId>,
    pub key: Key,
    pub type_annotation: Option<TypeId>,
    pub value: ValueId,
    pub span: Span,
}

#[derive(Debug, Clone)]
pub struct TypeDeclaration {
    pub annotations: Vec<AnnotationId>,
    pub name: Key,
    pub definition: SchemaId,
    pub span: Span,
}

#[derive(Debug, Clone)]
pub struct Key {
    pub raw: String,
    pub span: Span,
}

#[derive(Debug, Clone)]
pub struct ErrorNode {
    pub message: String,
    pub span: Span,
}

} // verus!
