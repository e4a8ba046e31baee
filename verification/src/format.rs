use vstd::prelude::*;

use crate::ast::{
    lemma_extends_refl, lemma_refs_preserved, lemma_wf_reveal, Annotation, AnnotationArgument,
    AnnotationId, Ast, ComparisonOperator, Document, EnumVariant, ExpressionValue, Member,
    MemberId, QuantifierKind, Root, Schema, SchemaKind, StructField, TypeExpr, TypeId, Value,
    ValueId,
};
use crate::text::push_str;

verus! {

// ---------------------------------------------------------------------------
// The canonical text of a document
// ---------------------------------------------------------------------------
//
// Each text function takes a `fuel` that bounds how deep it follows
// references; every node of a well-formed AST is reached with fuel to spare
// when rendering starts from `Ast::node_bound() + 1`.

/// Two spaces per indentation level.
pub open spec fn indent(level: nat) -> Seq<char>
    decreases level,
{
    if level == 0 {
        Seq::empty()
    } else {
        indent((level - 1) as nat) + "  "@
    }
}

/// The canonical spelling of a comparison operator.
pub open spec fn comparison_word(operator: ComparisonOperator) -> Seq<char> {
    match operator {
        ComparisonOperator::Less => "<"@,
        ComparisonOperator::LessEqual => "<="@,
        ComparisonOperator::Greater => ">"@,
        ComparisonOperator::GreaterEqual => ">="@,
        ComparisonOperator::Equals => "equals"@,
        ComparisonOperator::Contains => "contains"@,
        ComparisonOperator::In => "in"@,
        ComparisonOperator::Matches => "matches"@,
        ComparisonOperator::Starts => "starts"@,
        ComparisonOperator::Ends => "ends"@,
    }
}

/// The canonical spelling of a quantifier.
pub open spec fn quantifier_word(kind: QuantifierKind) -> Seq<char> {
    match kind {
        QuantifierKind::All => "all"@,
        QuantifierKind::Any => "any"@,
        QuantifierKind::One => "one"@,
        QuantifierKind::NoneOf => "none"@,
    }
}

/// A syntax error rendered as a block comment.
pub open spec fn error_comment(message: Seq<char>) -> Seq<char> {
    "/* "@ + message + " */"@
}

/// The text of an optional string, empty when absent.
pub open spec fn opt_text(s: Option<String>) -> Seq<char> {
    match s {
        Some(t) => t@,
        None => Seq::empty(),
    }
}

/// A value: literals by their source text, containers and expressions in
/// canonical layout, syntax errors as comments; nothing for a missing value.
pub open spec fn value_text(ast: Ast, id: ValueId, level: nat, fuel: nat) -> Seq<char>
    decreases fuel, 5nat, 0nat,
{
    if fuel == 0 || id.0 >= ast.values_view().len() {
        Seq::empty()
    } else {
        match ast.values_view()[id.0 as int] {
            Value::Boolean { value, .. } => if value {
                "true"@
            } else {
                "false"@
            },
            Value::Number { raw, .. } => raw@,
            Value::String(v) => v.raw@,
            Value::Regex(v) => "/"@ + v.pattern@ + "/"@ + opt_text(v.flags),
            Value::EnumPath(v) => v.path@,
            Value::Unknown(v) => v.raw@,
            Value::Array(a) => array_text(ast, a.items@, level, fuel),
            Value::Object(o) => object_text(ast, o.members@, level, fuel),
            Value::Schema(s) => if s.schema.0 < ast.schemas_view().len() {
                schema_text(ast, ast.schemas_view()[s.schema.0 as int], level, fuel)
            } else {
                Seq::empty()
            },
            Value::Expression(e) => expression_text(ast, e, level, fuel),
            Value::Error(e) => error_comment(e.message@),
        }
    }
}

/// `[a, b, c]` on one line.
pub open spec fn array_text(ast: Ast, items: Seq<ValueId>, level: nat, fuel: nat) -> Seq<char>
    decreases fuel, 2nat, 0nat,
{
    if fuel == 0 {
        Seq::empty()
    } else {
        "["@ + items_text(ast, items, level, fuel) + "]"@
    }
}

/// Array items separated by `, `.
pub open spec fn items_text(ast: Ast, items: Seq<ValueId>, level: nat, fuel: nat) -> Seq<char>
    decreases fuel, 1nat, items.len(),
{
    if fuel == 0 || items.len() == 0 {
        Seq::empty()
    } else {
        items_text(ast, items.drop_last(), level, fuel) + (if items.len() > 1 {
            ", "@
        } else {
            Seq::empty()
        }) + value_text(ast, items.last(), level, (fuel - 1) as nat)
    }
}

/// `{}`, or `{`, one member per line one level deeper, and `}` on a line of
/// its own at this level.
pub open spec fn object_text(ast: Ast, members: Seq<MemberId>, level: nat, fuel: nat) -> Seq<char>
    decreases fuel, 2nat, 0nat,
{
    if fuel == 0 {
        Seq::empty()
    } else {
        "{"@ + (if members.len() > 0 {
            "\n"@ + member_lines(ast, members, level + 1, fuel) + "\n"@ + indent(level)
        } else {
            Seq::empty()
        }) + "}"@
    }
}

/// The members of an implicit object, one per line, each line ended.
pub open spec fn members_text(ast: Ast, members: Seq<MemberId>, level: nat, fuel: nat) -> Seq<char>
    decreases fuel, 2nat, 0nat,
{
    if fuel == 0 {
        Seq::empty()
    } else {
        member_lines(ast, members, level, fuel) + if members.len() > 0 {
            "\n"@
        } else {
            Seq::empty()
        }
    }
}

/// Members separated by line breaks.
pub open spec fn member_lines(ast: Ast, members: Seq<MemberId>, level: nat, fuel: nat) -> Seq<char>
    decreases fuel, 1nat, members.len(),
{
    if fuel == 0 || members.len() == 0 {
        Seq::empty()
    } else {
        member_lines(ast, members.drop_last(), level, fuel) + (if members.len() > 1 {
            "\n"@
        } else {
            Seq::empty()
        }) + member_text(ast, members.last(), level, (fuel - 1) as nat)
    }
}

/// The annotations that precede a member.
pub open spec fn member_annotations(m: Member) -> Seq<AnnotationId> {
    match m {
        Member::Binding(b) => b.annotations@,
        Member::TypeDeclaration(d) => d.annotations@,
        Member::Error(_) => Seq::empty(),
    }
}

/// A member: its annotations, then at this level `key: Type = value`,
/// `Name: schema`, or the syntax error as a comment.
pub open spec fn member_text(ast: Ast, id: MemberId, level: nat, fuel: nat) -> Seq<char>
    decreases fuel, 5nat, 0nat,
{
    if fuel == 0 || id.0 >= ast.members_view().len() {
        Seq::empty()
    } else {
        let m = ast.members_view()[id.0 as int];
        annotations_text(ast, member_annotations(m), level, fuel) + indent(level) + match m {
            Member::Binding(b) => b.key.raw@ + (match b.type_annotation {
                Some(t) => ": "@ + type_text(ast, t, level, (fuel - 1) as nat),
                None => Seq::empty(),
            }) + " = "@ + value_text(ast, b.value, level, (fuel - 1) as nat),
            Member::TypeDeclaration(d) => d.name.raw@ + ": "@ + if d.definition.0
                < ast.schemas_view().len() {
                schema_text(ast, ast.schemas_view()[d.definition.0 as int], level, fuel)
            } else {
                Seq::empty()
            },
            Member::Error(e) => error_comment(e.message@),
        }
    }
}

/// Annotations, one per line at this level.
pub open spec fn annotations_text(ast: Ast, ids: Seq<AnnotationId>, level: nat, fuel: nat) -> Seq<
    char,
>
    decreases fuel, 1nat, ids.len(),
{
    if fuel == 0 || ids.len() == 0 {
        Seq::empty()
    } else {
        annotations_text(ast, ids.drop_last(), level, fuel) + annotation_text(
            ast,
            ids.last(),
            level,
            (fuel - 1) as nat,
        )
    }
}

/// `#[name = a, key = b]` on a line of its own; nothing for a missing one.
pub open spec fn annotation_text(ast: Ast, id: AnnotationId, level: nat, fuel: nat) -> Seq<char>
    decreases fuel, 2nat, 0nat,
{
    if fuel == 0 || id.0 >= ast.annotations_view().len() {
        Seq::empty()
    } else {
        let a = ast.annotations_view()[id.0 as int];
        indent(level) + "#["@ + a.name@ + arguments_text(ast, a.arguments@, level, fuel) + "]\n"@
    }
}

/// Annotation arguments: ` = ` before a first argument without a key, `, `
/// before the others.
pub open spec fn arguments_text(ast: Ast, args: Seq<AnnotationArgument>, level: nat, fuel: nat) -> Seq<
    char,
>
    decreases fuel, 1nat, args.len(),
{
    if fuel == 0 || args.len() == 0 {
        Seq::empty()
    } else {
        let a = args.last();
        arguments_text(ast, args.drop_last(), level, fuel) + (if args.len() == 1 && a.key is None {
            " = "@
        } else {
            ", "@
        }) + (match a.key {
            Some(k) => k.raw@ + " = "@,
            None => Seq::empty(),
        }) + match a.value {
            Some(v) => value_text(ast, v, level, (fuel - 1) as nat),
            None => Seq::empty(),
        }
    }
}

/// An expression in canonical form: `not` before a parenthesised operand,
/// groups in parentheses, comparisons with single spaces, and quantifiers
/// with one condition per line one level deeper.
pub open spec fn expression_text(ast: Ast, e: ExpressionValue, level: nat, fuel: nat) -> Seq<char>
    decreases fuel, 2nat, 0nat,
{
    if fuel == 0 {
        Seq::empty()
    } else {
        match e {
            ExpressionValue::Unary { operand, .. } => if operand.0 < ast.values_view().len()
                && ast.values_view()[operand.0 as int] matches Value::Expression(
                ExpressionValue::Group { .. },
            ) {
                "not "@ + value_text(ast, operand, level, (fuel - 1) as nat)
            } else {
                "not ("@ + value_text(ast, operand, level, (fuel - 1) as nat) + ")"@
            },
            ExpressionValue::Group { expression, .. } => "("@ + value_text(
                ast,
                expression,
                level,
                (fuel - 1) as nat,
            ) + ")"@,
            ExpressionValue::Comparison { left, operator, right, .. } => value_text(
                ast,
                left,
                level,
                (fuel - 1) as nat,
            ) + " "@ + comparison_word(operator) + " "@ + value_text(
                ast,
                right,
                level,
                (fuel - 1) as nat,
            ),
            ExpressionValue::Quantifier { kind, conditions, .. } => quantifier_word(kind) + " ("@
                + conditions_text(ast, conditions@, level + 1, fuel) + (if conditions@.len() > 0 {
                "\n"@ + indent(level)
            } else {
                Seq::empty()
            }) + ")"@,
        }
    }
}

/// Quantifier conditions, each on a new line at `level`.
pub open spec fn conditions_text(ast: Ast, conditions: Seq<ValueId>, level: nat, fuel: nat) -> Seq<
    char,
>
    decreases fuel, 1nat, conditions.len(),
{
    if fuel == 0 || conditions.len() == 0 {
        Seq::empty()
    } else {
        conditions_text(ast, conditions.drop_last(), level, fuel) + "\n"@ + indent(level)
            + value_text(ast, conditions.last(), level, (fuel - 1) as nat)
    }
}

/// `struct { .. }` or `enum { .. }` with one field or variant per line one
/// level deeper.
pub open spec fn schema_text(ast: Ast, s: Schema, level: nat, fuel: nat) -> Seq<char>
    decreases fuel, 4nat, 0nat,
{
    if fuel == 0 {
        Seq::empty()
    } else {
        match s.kind {
            SchemaKind::Struct => "struct {"@ + fields_text(ast, s.fields@, level + 1, fuel) + (if s.fields@.len()
                > 0 {
                "\n"@ + indent(level)
            } else {
                Seq::empty()
            }) + "}"@,
            SchemaKind::Enum => "enum {"@ + variants_text(ast, s.variants@, level + 1, fuel) + (if s.variants@.len()
                > 0 {
                "\n"@ + indent(level)
            } else {
                Seq::empty()
            }) + "}"@,
        }
    }
}

/// Struct fields in order.
pub open spec fn fields_text(ast: Ast, fields: Seq<StructField>, level: nat, fuel: nat) -> Seq<char>
    decreases fuel, 3nat, fields.len(),
{
    if fuel == 0 || fields.len() == 0 {
        Seq::empty()
    } else {
        fields_text(ast, fields.drop_last(), level, fuel) + field_text(ast, fields.last(), level, fuel)
    }
}

/// A field on a new line: its annotations, then `key: Type = default`.
pub open spec fn field_text(ast: Ast, f: StructField, level: nat, fuel: nat) -> Seq<char>
    decreases fuel, 2nat, 0nat,
{
    if fuel == 0 {
        Seq::empty()
    } else {
        "\n"@ + annotations_text(ast, f.annotations@, level, fuel) + indent(level) + f.key.raw@
            + (match f.type_annotation {
            Some(t) => ": "@ + type_text(ast, t, level, (fuel - 1) as nat),
            None => Seq::empty(),
        }) + match f.default_value {
            Some(v) => " = "@ + value_text(ast, v, level, (fuel - 1) as nat),
            None => Seq::empty(),
        }
    }
}

/// Enum variants in order.
pub open spec fn variants_text(ast: Ast, variants: Seq<EnumVariant>, level: nat, fuel: nat) -> Seq<
    char,
>
    decreases fuel, 3nat, variants.len(),
{
    if fuel == 0 || variants.len() == 0 {
        Seq::empty()
    } else {
        variants_text(ast, variants.drop_last(), level, fuel) + variant_text(
            ast,
            variants.last(),
            level,
            fuel,
        )
    }
}

/// A variant on a new line: its annotations, then `name: Payload`.
pub open spec fn variant_text(ast: Ast, v: EnumVariant, level: nat, fuel: nat) -> Seq<char>
    decreases fuel, 2nat, 0nat,
{
    if fuel == 0 {
        Seq::empty()
    } else {
        "\n"@ + annotations_text(ast, v.annotations@, level, fuel) + indent(level) + v.name.raw@
            + match v.payload {
            Some(t) => ": "@ + type_text(ast, t, level, (fuel - 1) as nat),
            None => Seq::empty(),
        }
    }
}

/// A type: a name, `Constructor<A, B>`, an inline schema, or the message of
/// a syntax error; nothing for a missing type.
pub open spec fn type_text(ast: Ast, id: TypeId, level: nat, fuel: nat) -> Seq<char>
    decreases fuel, 5nat, 0nat,
{
    if fuel == 0 || id.0 >= ast.types_view().len() {
        Seq::empty()
    } else {
        match ast.types_view()[id.0 as int] {
            TypeExpr::Builtin { name, .. } => name@,
            TypeExpr::Named { path, .. } => path@,
            TypeExpr::Generic { constructor, arguments, .. } => constructor@ + "<"@ + type_args_text(
                ast,
                arguments@,
                level,
                fuel,
            ) + ">"@,
            TypeExpr::Schema { schema, .. } => if schema.0 < ast.schemas_view().len() {
                schema_text(ast, ast.schemas_view()[schema.0 as int], level, fuel)
            } else {
                Seq::empty()
            },
            TypeExpr::Error(e) => e.message@,
        }
    }
}

/// Type arguments separated by `, `.
pub open spec fn type_args_text(ast: Ast, ids: Seq<TypeId>, level: nat, fuel: nat) -> Seq<char>
    decreases fuel, 1nat, ids.len(),
{
    if fuel == 0 || ids.len() == 0 {
        Seq::empty()
    } else {
        type_args_text(ast, ids.drop_last(), level, fuel) + (if ids.len() > 1 {
            ", "@
        } else {
            Seq::empty()
        }) + type_text(ast, ids.last(), level, (fuel - 1) as nat)
    }
}

/// The canonical multiline text of a document: its root annotations, then
/// the members of an implicit root one per line, or an explicit object or
/// an array root followed by a line break.
pub open spec fn canonical_text(ast: Ast) -> Seq<char> {
    let fuel = ast.node_bound() + 1;
    annotations_text(ast, ast.root_annotations_view(), 0, fuel) + match ast.root_view() {
        Root::ImplicitObject { members } => members_text(ast, members@, 0, fuel),
        Root::ExplicitObject { members } => object_text(ast, members@, 0, fuel) + "\n"@,
        Root::Array { items } => array_text(ast, items@, 0, fuel) + "\n"@,
    }
}

// ---------------------------------------------------------------------------
// Rendering
// ---------------------------------------------------------------------------

/// Room for the indentation level to grow while the fuel shrinks.
spec fn level_room(level: u64, fuel: nat) -> bool {
    level + fuel <= 0xffff_ffff_0000_0000u64
}

/// Reprint the exact source owned by the parsed document.
pub fn reprint_lossless(document: &Document) -> (text: String)
    ensures
        text@ == document.source@,
{
    document.source().to_owned()
}

/// Format a parsed document into the canonical multiline representation.
pub fn format_canonical(document: &Document) -> (text: String)
    requires
        document.ast.wf(),
    ensures
        text@ == canonical_text(document.ast),
{
    let ast = &document.ast;
    proof {
        lemma_wf_reveal(*ast);
    }
    let ghost fuel: nat = ast.ranks@.5 + 1;
    let mut output = String::new();
    render_annotations(ast, ast.root_annotations.as_slice(), 0, &mut output, Ghost(fuel));
    let ghost head = output@;
    match &ast.root {
        Root::ImplicitObject { members } => {
            render_members(ast, members.as_slice(), 0, &mut output, Ghost(fuel));
        },
        Root::ExplicitObject { members } => {
            render_object(ast, members.as_slice(), 0, &mut output, Ghost(fuel));
            push_str(&mut output, "\n");
        },
        Root::Array { items } => {
            render_array(ast, items.as_slice(), 0, &mut output, Ghost(fuel));
            push_str(&mut output, "\n");
        },
    }
    proof {
        assert(output@ =~= canonical_text(*ast));
    }
    output
}

fn write_indent(level: u64, output: &mut String)
    ensures
        final(output)@ == old(output)@ + indent(level as nat),
{
    let mut i: u64 = 0;
    while i < level
        invariant
            i <= level,
            output@ == old(output)@ + indent(i as nat),
        decreases level - i,
    {
        push_str(output, "  ");
        i = i + 1;
        proof {
            assert(output@ =~= old(output)@ + indent(i as nat));
        }
    }
}

fn comparison_text(operator: ComparisonOperator) -> (text: &'static str)
    ensures
        text@ == comparison_word(operator),
{
    match operator {
        ComparisonOperator::Less => "<",
        ComparisonOperator::LessEqual => "<=",
        ComparisonOperator::Greater => ">",
        ComparisonOperator::GreaterEqual => ">=",
        ComparisonOperator::Equals => "equals",
        ComparisonOperator::Contains => "contains",
        ComparisonOperator::In => "in",
        ComparisonOperator::Matches => "matches",
        ComparisonOperator::Starts => "starts",
        ComparisonOperator::Ends => "ends",
    }
}

fn quantifier_text(kind: QuantifierKind) -> (text: &'static str)
    ensures
        text@ == quantifier_word(kind),
{
    match kind {
        QuantifierKind::All => "all",
        QuantifierKind::Any => "any",
        QuantifierKind::One => "one",
        QuantifierKind::NoneOf => "none",
    }
}

fn render_members(ast: &Ast, members: &[MemberId], level: u64, output: &mut String, Ghost(fuel): Ghost<nat>)
    requires
        ast.well_formed(),
        fuel >= 1,
        ast.members_below(members@, (fuel - 1) as nat),
        level_room(level, fuel),
    ensures
        final(output)@ == old(output)@ + members_text(*ast, members@, level as nat, fuel),
    decreases fuel, 2nat, 0nat,
{
    let ghost start = output@;
    let mut index: usize = 0;
    while index < members.len()
        invariant
            ast.well_formed(),
            fuel >= 1,
            ast.members_below(members@, (fuel - 1) as nat),
            level_room(level, fuel),
            index <= members@.len(),
            output@ == start + member_lines(*ast, members@.subrange(0, index as int), level as nat, fuel),
        decreases members@.len() - index,
    {
        let ghost before = output@;
        if index > 0 {
            push_str(output, "\n");
        }
        proof {
            assert(ast.member_below(members@[index as int], (fuel - 1) as nat));
        }
        render_member(ast, members[index], level, output, Ghost((fuel - 1) as nat));
        proof {
            let next = members@.subrange(0, index + 1);
            assert(next.drop_last() =~= members@.subrange(0, index as int));
            assert(output@ =~= start + member_lines(*ast, next, level as nat, fuel));
        }
        index = index + 1;
    }
    if !members.is_empty() {
        push_str(output, "\n");
    }
    proof {
        assert(members@.subrange(0, members@.len() as int) =~= members@);
        assert(output@ =~= old(output)@ + members_text(*ast, members@, level as nat, fuel));
    }
}

fn render_object(ast: &Ast, members: &[MemberId], level: u64, output: &mut String, Ghost(fuel): Ghost<nat>)
    requires
        ast.well_formed(),
        fuel >= 1,
        ast.members_below(members@, (fuel - 1) as nat),
        level_room(level, fuel),
    ensures
        final(output)@ == old(output)@ + object_text(*ast, members@, level as nat, fuel),
    decreases fuel, 2nat, 0nat,
{
    push_str(output, "{");
    if !members.is_empty() {
        push_str(output, "\n");
        let inner = level + 1;
        let ghost start = output@;
        let mut index: usize = 0;
        while index < members.len()
            invariant
                ast.well_formed(),
                fuel >= 1,
                ast.members_below(members@, (fuel - 1) as nat),
                level_room(level, fuel),
                inner == level + 1,
                index <= members@.len(),
                output@ == start + member_lines(*ast, members@.subrange(0, index as int), inner as nat, fuel),
            decreases members@.len() - index,
        {
            if index > 0 {
                push_str(output, "\n");
            }
            proof {
                assert(ast.member_below(members@[index as int], (fuel - 1) as nat));
            }
            render_member(ast, members[index], inner, output, Ghost((fuel - 1) as nat));
            proof {
                let next = members@.subrange(0, index + 1);
                assert(next.drop_last() =~= members@.subrange(0, index as int));
                assert(output@ =~= start + member_lines(*ast, next, inner as nat, fuel));
            }
            index = index + 1;
        }
        push_str(output, "\n");
        write_indent(level, output);
        proof {
            assert(members@.subrange(0, members@.len() as int) =~= members@);
        }
    }
    push_str(output, "}");
    proof {
        assert(output@ =~= old(output)@ + object_text(*ast, members@, level as nat, fuel));
    }
}

#[verifier::rlimit(40)]
fn render_member(ast: &Ast, member_id: MemberId, level: u64, output: &mut String, Ghost(fuel): Ghost<nat>)
    requires
        ast.well_formed(),
        fuel >= 1,
        member_id.0 < ast.members@.len() ==> ast.member_rank(member_id) < fuel,
        level_room(level, fuel),
    ensures
        final(output)@ == old(output)@ + member_text(*ast, member_id, level as nat, fuel),
    decreases fuel, 5nat, 0nat,
{
    proof {
        lemma_wf_reveal(*ast);
    }
    let member = match ast.member(member_id) {
        Some(member) => member,
        None => return ,
    };
    let ghost rank = ast.member_rank(member_id);
    proof {
        assert(ast.member_refs_below(*member, rank));
        lemma_extends_refl(*ast);
        lemma_refs_preserved(*ast, *ast, rank, (fuel - 1) as nat);
    }
    let no_annotations: Vec<AnnotationId> = Vec::new();
    let annotations = match member {
        Member::Binding(binding) => binding.annotations.as_slice(),
        Member::TypeDeclaration(declaration) => declaration.annotations.as_slice(),
        Member::Error(_) => no_annotations.as_slice(),
    };
    render_annotations(ast, annotations, level, output, Ghost(fuel));
    write_indent(level, output);
    let ghost head = output@;
    match member {
        Member::Binding(binding) => {
            push_str(output, binding.key.raw.as_str());
            if let Some(type_id) = binding.type_annotation {
                push_str(output, ": ");
                render_type(ast, type_id, level, output, Ghost((fuel - 1) as nat));
            }
            push_str(output, " = ");
            render_value(ast, binding.value, level, output, Ghost((fuel - 1) as nat));
        },
        Member::TypeDeclaration(declaration) => {
            push_str(output, declaration.name.raw.as_str());
            push_str(output, ": ");
            if let Some(schema) = ast.schema(declaration.definition) {
                proof {
                    let s = declaration.definition;
                    assert(ast.schema_refs_below(*schema, ast.schema_rank(s)));
                    lemma_refs_preserved(*ast, *ast, ast.schema_rank(s), (fuel - 1) as nat);
                }
                render_schema(ast, schema, level, output, Ghost(fuel));
            }
        },
        Member::Error(error) => {
            push_str(output, "/* ");
            push_str(output, error.message.as_str());
            push_str(output, " */");
        },
    }
    proof {
        assert(output@ =~= old(output)@ + member_text(*ast, member_id, level as nat, fuel));
    }
}

fn render_value(ast: &Ast, value_id: ValueId, level: u64, output: &mut String, Ghost(fuel): Ghost<nat>)
    requires
        ast.well_formed(),
        fuel >= 1,
        value_id.0 < ast.values@.len() ==> ast.value_rank(value_id) < fuel,
        level_room(level, fuel),
    ensures
        final(output)@ == old(output)@ + value_text(*ast, value_id, level as nat, fuel),
    decreases fuel, 5nat, 0nat,
{
    proof {
        lemma_wf_reveal(*ast);
    }
    let value = match ast.value(value_id) {
        Some(value) => value,
        None => return ,
    };
    let ghost rank = ast.value_rank(value_id);
    proof {
        assert(ast.value_refs_below(*value, rank));
        lemma_extends_refl(*ast);
        lemma_refs_preserved(*ast, *ast, rank, (fuel - 1) as nat);
    }
    match value {
        Value::Boolean { value, .. } => push_str(
            output,
            if *value {
                "true"
            } else {
                "false"
            },
        ),
        Value::Number { raw, .. } => push_str(output, raw.as_str()),
        Value::String(value) => push_str(output, value.raw.as_str()),
        Value::Regex(value) => {
            push_str(output, "/");
            push_str(output, value.pattern.as_str());
            push_str(output, "/");
            if let Some(flags) = &value.flags {
                push_str(output, flags.as_str());
            }
        },
        Value::EnumPath(value) => push_str(output, value.path.as_str()),
        Value::Unknown(value) => push_str(output, value.raw.as_str()),
        Value::Array(value) => render_array(ast, value.items.as_slice(), level, output, Ghost(fuel)),
        Value::Object(value) => render_object(ast, value.members.as_slice(), level, output, Ghost(fuel)),
        Value::Schema(value) => {
            if let Some(schema) = ast.schema(value.schema) {
                proof {
                    let s = value.schema;
                    assert(ast.schema_refs_below(*schema, ast.schema_rank(s)));
                    lemma_refs_preserved(*ast, *ast, ast.schema_rank(s), (fuel - 1) as nat);
                }
                render_schema(ast, schema, level, output, Ghost(fuel));
            }
        },
        Value::Expression(expression) => render_expression(ast, expression, level, output, Ghost(fuel)),
        Value::Error(error) => {
            push_str(output, "/* ");
            push_str(output, error.message.as_str());
            push_str(output, " */");
        },
    }
    proof {
        assert(output@ =~= old(output)@ + value_text(*ast, value_id, level as nat, fuel));
    }
}

fn render_expression(
    ast: &Ast,
    expression: &ExpressionValue,
    level: u64,
    output: &mut String,
    Ghost(fuel): Ghost<nat>,
)
    requires
        ast.well_formed(),
        fuel >= 1,
        ast.value_refs_below(Value::Expression(*expression), (fuel - 1) as nat),
        level_room(level, fuel),
    ensures
        final(output)@ == old(output)@ + expression_text(*ast, *expression, level as nat, fuel),
    decreases fuel, 2nat, 0nat,
{
    proof {
        lemma_wf_reveal(*ast);
    }
    let ghost inner_fuel: nat = (fuel - 1) as nat;
    match expression {
        ExpressionValue::Unary { operand, .. } => {
            if matches!(ast.value(*operand), Some(Value::Expression(ExpressionValue::Group { .. }))) {
                push_str(output, "not ");
                render_value(ast, *operand, level, output, Ghost(inner_fuel));
            } else {
                push_str(output, "not (");
                render_value(ast, *operand, level, output, Ghost(inner_fuel));
                push_str(output, ")");
            }
        },
        ExpressionValue::Group { expression, .. } => {
            push_str(output, "(");
            render_value(ast, *expression, level, output, Ghost(inner_fuel));
            push_str(output, ")");
        },
        ExpressionValue::Comparison { left, operator, right, .. } => {
            render_value(ast, *left, level, output, Ghost(inner_fuel));
            push_str(output, " ");
            push_str(output, comparison_text(*operator));
            push_str(output, " ");
            render_value(ast, *right, level, output, Ghost(inner_fuel));
        },
        ExpressionValue::Quantifier { kind, conditions, .. } => {
            push_str(output, quantifier_text(*kind));
            push_str(output, " (");
            let inner = level + 1;
            let ghost start = output@;
            let mut index: usize = 0;
            while index < conditions.len()
                invariant
                    ast.well_formed(),
                    fuel >= 1,
                    inner_fuel == fuel - 1,
                    ast.values_below(conditions@, inner_fuel),
                    level_room(level, fuel),
                    inner == level + 1,
                    index <= conditions@.len(),
                    output@ == start + conditions_text(
                        *ast,
                        conditions@.subrange(0, index as int),
                        inner as nat,
                        fuel,
                    ),
                decreases conditions@.len() - index,
            {
                push_str(output, "\n");
                write_indent(inner, output);
                proof {
                    assert(ast.value_below(conditions@[index as int], inner_fuel));
                }
                render_value(ast, conditions[index], inner, output, Ghost(inner_fuel));
                proof {
                    let next = conditions@.subrange(0, index + 1);
                    assert(next.drop_last() =~= conditions@.subrange(0, index as int));
                    assert(output@ =~= start + conditions_text(*ast, next, inner as nat, fuel));
                }
                index = index + 1;
            }
            proof {
                assert(conditions@.subrange(0, conditions@.len() as int) =~= conditions@);
            }
            if !conditions.is_empty() {
                push_str(output, "\n");
                write_indent(level, output);
            }
            push_str(output, ")");
        },
    }
    proof {
        assert(output@ =~= old(output)@ + expression_text(*ast, *expression, level as nat, fuel));
    }
}

fn render_annotations(
    ast: &Ast,
    annotations: &[AnnotationId],
    level: u64,
    output: &mut String,
    Ghost(fuel): Ghost<nat>,
)
    requires
        ast.well_formed(),
        fuel >= 1,
        ast.annotations_below(annotations@, (fuel - 1) as nat),
        level + fuel <= 0xffff_ffff_0000_0001u64,
    ensures
        final(output)@ == old(output)@ + annotations_text(*ast, annotations@, level as nat, fuel),
    decreases fuel, 1nat, 0nat,
{
    proof {
        lemma_wf_reveal(*ast);
        lemma_extends_refl(*ast);
    }
    let ghost start = output@;
    let mut index: usize = 0;
    while index < annotations.len()
        invariant
            ast.well_formed(),
            fuel >= 1,
            ast.annotations_below(annotations@, (fuel - 1) as nat),
            level + fuel <= 0xffff_ffff_0000_0001u64,
            ast.annotations_view() == ast.annotations@,
            ast.extends(*ast),
            index <= annotations@.len(),
            output@ == start + annotations_text(
                *ast,
                annotations@.subrange(0, index as int),
                level as nat,
                fuel,
            ),
        decreases annotations@.len() - index,
    {
        let ghost before = output@;
        let annotation_id = annotations[index];
        proof {
            assert(ast.annotation_below(annotation_id, (fuel - 1) as nat));
        }
        let annotation = match ast.annotation(annotation_id) {
            Some(annotation) => annotation,
            None => {
                proof {
                    assert(false);
                }
                index = index + 1;
                continue ;
            },
        };
        let ghost rank = ast.annotation_rank(annotation_id);
        let ghost argument_fuel: nat = (fuel - 2) as nat;
        proof {
            assert(ast.annotation_refs_below(*annotation, rank));
            lemma_refs_preserved(*ast, *ast, rank, argument_fuel);
        }
        write_indent(level, output);
        push_str(output, "#[");
        push_str(output, annotation.name.as_str());
        let ghost head = output@;
        let arguments = annotation.arguments.as_slice();
        let mut position: usize = 0;
        while position < arguments.len()
            invariant
                ast.well_formed(),
                fuel >= 2,
                argument_fuel == fuel - 2,
                ast.annotation_refs_below(*annotation, argument_fuel),
                arguments@ == annotation.arguments@,
                level + fuel <= 0xffff_ffff_0000_0001u64,
                position <= arguments@.len(),
                output@ == head + arguments_text(
                    *ast,
                    arguments@.subrange(0, position as int),
                    level as nat,
                    (fuel - 1) as nat,
                ),
            decreases arguments@.len() - position,
        {
            let argument = &arguments[position];
            if position == 0 && argument.key.is_none() {
                push_str(output, " = ");
            } else {
                push_str(output, ", ");
            }
            if let Some(key) = &argument.key {
                push_str(output, key.raw.as_str());
                push_str(output, " = ");
            }
            if let Some(value_id) = argument.value {
                proof {
                    assert(ast.argument_refs_below(arguments@[position as int], argument_fuel));
                }
                render_value(ast, value_id, level, output, Ghost(argument_fuel));
            }
            proof {
                let next = arguments@.subrange(0, position + 1);
                assert(next.drop_last() =~= arguments@.subrange(0, position as int));
                assert(output@ =~= head + arguments_text(*ast, next, level as nat, (fuel - 1) as nat));
            }
            position = position + 1;
        }
        push_str(output, "]\n");
        proof {
            assert(arguments@.subrange(0, arguments@.len() as int) =~= arguments@);
            assert(fuel - 1 > 0);
            assert(annotation_text(*ast, annotation_id, level as nat, (fuel - 1) as nat) == indent(
                level as nat,
            ) + "#["@ + annotation.name@ + arguments_text(*ast, arguments@, level as nat, (fuel - 1) as nat)
                + "]\n"@);
            assert(output@ =~= before + annotation_text(*ast, annotation_id, level as nat, (fuel - 1) as nat));
            let next = annotations@.subrange(0, index + 1);
            assert(next.drop_last() =~= annotations@.subrange(0, index as int));
            assert(output@ =~= start + annotations_text(*ast, next, level as nat, fuel));
        }
        index = index + 1;
    }
    proof {
        assert(annotations@.subrange(0, annotations@.len() as int) =~= annotations@);
    }
}

fn render_array(ast: &Ast, items: &[ValueId], level: u64, output: &mut String, Ghost(fuel): Ghost<nat>)
    requires
        ast.well_formed(),
        fuel >= 1,
        ast.values_below(items@, (fuel - 1) as nat),
        level_room(level, fuel),
    ensures
        final(output)@ == old(output)@ + array_text(*ast, items@, level as nat, fuel),
    decreases fuel, 2nat, 0nat,
{
    push_str(output, "[");
    let ghost start = output@;
    let mut index: usize = 0;
    while index < items.len()
        invariant
            ast.well_formed(),
            fuel >= 1,
            ast.values_below(items@, (fuel - 1) as nat),
            level_room(level, fuel),
            index <= items@.len(),
            output@ == start + items_text(*ast, items@.subrange(0, index as int), level as nat, fuel),
        decreases items@.len() - index,
    {
        if index > 0 {
            push_str(output, ", ");
        }
        proof {
            assert(ast.value_below(items@[index as int], (fuel - 1) as nat));
        }
        render_value(ast, items[index], level, output, Ghost((fuel - 1) as nat));
        proof {
            let next = items@.subrange(0, index + 1);
            assert(next.drop_last() =~= items@.subrange(0, index as int));
            assert(output@ =~= start + items_text(*ast, next, level as nat, fuel));
        }
        index = index + 1;
    }
    push_str(output, "]");
    proof {
        assert(items@.subrange(0, items@.len() as int) =~= items@);
        assert(output@ =~= old(output)@ + array_text(*ast, items@, level as nat, fuel));
    }
}

fn render_schema(ast: &Ast, schema: &Schema, level: u64, output: &mut String, Ghost(fuel): Ghost<nat>)
    requires
        ast.well_formed(),
        fuel >= 1,
        ast.schema_refs_below(*schema, (fuel - 1) as nat),
        level_room(level, fuel),
    ensures
        final(output)@ == old(output)@ + schema_text(*ast, *schema, level as nat, fuel),
    decreases fuel, 4nat, 0nat,
{
    let inner = level + 1;
    let ghost inner_fuel: nat = (fuel - 1) as nat;
    match schema.kind {
        SchemaKind::Struct => {
            push_str(output, "struct {");
            let ghost start = output@;
            let fields = schema.fields.as_slice();
            let mut index: usize = 0;
            while index < fields.len()
                invariant
                    ast.well_formed(),
                    fuel >= 1,
                    inner_fuel == fuel - 1,
                    ast.schema_refs_below(*schema, inner_fuel),
                    fields@ == schema.fields@,
                    level_room(level, fuel),
                    inner == level + 1,
                    index <= fields@.len(),
                    output@ == start + fields_text(*ast, fields@.subrange(0, index as int), inner as nat, fuel),
                decreases fields@.len() - index,
            {
                let field = &fields[index];
                proof {
                    assert(ast.field_refs_below(fields@[index as int], inner_fuel));
                }
                let ghost before = output@;
                push_str(output, "\n");
                render_annotations(ast, field.annotations.as_slice(), inner, output, Ghost(fuel));
                write_indent(inner, output);
                push_str(output, field.key.raw.as_str());
                if let Some(type_id) = field.type_annotation {
                    push_str(output, ": ");
                    render_type(ast, type_id, inner, output, Ghost(inner_fuel));
                }
                if let Some(value_id) = field.default_value {
                    push_str(output, " = ");
                    render_value(ast, value_id, inner, output, Ghost(inner_fuel));
                }
                proof {
                    assert(output@ =~= before + field_text(*ast, *field, inner as nat, fuel));
                    let next = fields@.subrange(0, index + 1);
                    assert(next.drop_last() =~= fields@.subrange(0, index as int));
                    assert(output@ =~= start + fields_text(*ast, next, inner as nat, fuel));
                }
                index = index + 1;
            }
            proof {
                assert(fields@.subrange(0, fields@.len() as int) =~= fields@);
            }
            if !fields.is_empty() {
                push_str(output, "\n");
                write_indent(level, output);
            }
            push_str(output, "}");
        },
        SchemaKind::Enum => {
            push_str(output, "enum {");
            let ghost start = output@;
            let variants = schema.variants.as_slice();
            let mut index: usize = 0;
            while index < variants.len()
                invariant
                    ast.well_formed(),
                    fuel >= 1,
                    inner_fuel == fuel - 1,
                    ast.schema_refs_below(*schema, inner_fuel),
                    variants@ == schema.variants@,
                    level_room(level, fuel),
                    inner == level + 1,
                    index <= variants@.len(),
                    output@ == start + variants_text(
                        *ast,
                        variants@.subrange(0, index as int),
                        inner as nat,
                        fuel,
                    ),
                decreases variants@.len() - index,
            {
                let variant = &variants[index];
                proof {
                    assert(ast.variant_refs_below(variants@[index as int], inner_fuel));
                }
                let ghost before = output@;
                push_str(output, "\n");
                render_annotations(ast, variant.annotations.as_slice(), inner, output, Ghost(fuel));
                write_indent(inner, output);
                push_str(output, variant.name.raw.as_str());
                if let Some(type_id) = variant.payload {
                    push_str(output, ": ");
                    render_type(ast, type_id, inner, output, Ghost(inner_fuel));
                }
                proof {
                    assert(output@ =~= before + variant_text(*ast, *variant, inner as nat, fuel));
                    let next = variants@.subrange(0, index + 1);
                    assert(next.drop_last() =~= variants@.subrange(0, index as int));
                    assert(output@ =~= start + variants_text(*ast, next, inner as nat, fuel));
                }
                index = index + 1;
            }
            proof {
                assert(variants@.subrange(0, variants@.len() as int) =~= variants@);
            }
            if !variants.is_empty() {
                push_str(output, "\n");
                write_indent(level, output);
            }
            push_str(output, "}");
        },
    }
    proof {
        assert(output@ =~= old(output)@ + schema_text(*ast, *schema, level as nat, fuel));
    }
}

fn render_type(ast: &Ast, type_id: TypeId, level: u64, output: &mut String, Ghost(fuel): Ghost<nat>)
    requires
        ast.well_formed(),
        fuel >= 1,
        type_id.0 < ast.types@.len() ==> ast.type_rank(type_id) < fuel,
        level_room(level, fuel),
    ensures
        final(output)@ == old(output)@ + type_text(*ast, type_id, level as nat, fuel),
    decreases fuel, 5nat, 0nat,
{
    proof {
        lemma_wf_reveal(*ast);
    }
    let type_expr = match ast.type_expr(type_id) {
        Some(type_expr) => type_expr,
        None => return ,
    };
    let ghost rank = ast.type_rank(type_id);
    proof {
        assert(ast.type_refs_below(*type_expr, rank));
        lemma_extends_refl(*ast);
        lemma_refs_preserved(*ast, *ast, rank, (fuel - 1) as nat);
    }
    match type_expr {
        TypeExpr::Builtin { name, .. } => push_str(output, name.as_str()),
        TypeExpr::Named { path, .. } => push_str(output, path.as_str()),
        TypeExpr::Generic { constructor, arguments, .. } => {
            push_str(output, constructor.as_str());
            push_str(output, "<");
            let ghost start = output@;
            let mut index: usize = 0;
            while index < arguments.len()
                invariant
                    ast.well_formed(),
                    fuel >= 1,
                    ast.types_below(arguments@, (fuel - 1) as nat),
                    level_room(level, fuel),
                    index <= arguments@.len(),
                    output@ == start + type_args_text(*ast, arguments@.subrange(0, index as int), level as nat, fuel),
                decreases arguments@.len() - index,
            {
                if index > 0 {
                    push_str(output, ", ");
                }
                proof {
                    assert(ast.type_below(arguments@[index as int], (fuel - 1) as nat));
                }
                render_type(ast, arguments[index], level, output, Ghost((fuel - 1) as nat));
                proof {
                    let next = arguments@.subrange(0, index + 1);
                    assert(next.drop_last() =~= arguments@.subrange(0, index as int));
                    assert(output@ =~= start + type_args_text(*ast, next, level as nat, fuel));
                }
                index = index + 1;
            }
            proof {
                assert(arguments@.subrange(0, arguments@.len() as int) =~= arguments@);
            }
            push_str(output, ">");
        },
        TypeExpr::Schema { schema, .. } => {
            if let Some(schema) = ast.schema(*schema) {
                proof {
                    let s = type_expr->schema;
                    assert(ast.schema_refs_below(*schema, ast.schema_rank(s)));
                    lemma_refs_preserved(*ast, *ast, ast.schema_rank(s), (fuel - 1) as nat);
                }
                render_schema(ast, schema, level, output, Ghost(fuel));
            }
        },
        TypeExpr::Error(error) => push_str(output, error.message.as_str()),
    }
    proof {
        assert(output@ =~= old(output)@ + type_text(*ast, type_id, level as nat, fuel));
    }
}

} // verus!
