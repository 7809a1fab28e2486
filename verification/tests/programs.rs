//! The pass on whole programs.
use known_methods::ast as model;
use known_methods::context as model_context;
use known_methods::known_methods::PeepholeReplaceKnownMethods;
use known_methods::number::Number;
use oxc_allocator::{Allocator, Box as ArenaBox};
use oxc_ast::ast::{
    Argument, ArrayExpressionElement, Atom, BigintBase, CallExpression, Expression,
    IdentifierReference, NumberBase, SpreadElement, TSTypeParameterInstantiation,
};
use oxc_ast::AstBuilder;
use oxc_codegen::{Codegen, CodegenOptions};
use oxc_ecmascript::constant_evaluation::ConstantEvaluation;
use oxc_ecmascript::side_effects::MayHaveSideEffects;
use oxc_parser::{ParseOptions, Parser};
use oxc_semantic::{IsGlobalReference, SemanticBuilder};
use oxc_span::{GetSpan, SourceType, Span};
use oxc_syntax::number::ToJsString;
use oxc_syntax::operator::UnaryOperator;
use oxc_traverse::{traverse_mut, Ancestor, Traverse, TraverseCtx};

/// Holds the nodes that stand in the other tree as a number only.
pub struct Bridge<'a> {
    ast: AstBuilder<'a>,
    expressions: Vec<Option<Expression<'a>>>,
    spreads: Vec<Option<ArenaBox<'a, SpreadElement<'a>>>>,
    type_parameters: Vec<Option<ArenaBox<'a, TSTypeParameterInstantiation<'a>>>>,
}

fn node_id(index: usize) -> model::NodeId {
    model::NodeId { index: u32::try_from(index).expect("too many nodes in one call") }
}

fn span_in(span: Span) -> model::Span {
    model::Span { start: span.start, end: span.end }
}

fn span_out(span: model::Span) -> Span {
    Span::new(span.start, span.end)
}

fn number_base_in(base: NumberBase) -> model::NumberBase {
    match base {
        NumberBase::Float => model::NumberBase::Float,
        NumberBase::Decimal => model::NumberBase::Decimal,
        NumberBase::Binary => model::NumberBase::Binary,
        NumberBase::Octal => model::NumberBase::Octal,
        NumberBase::Hex => model::NumberBase::Hex,
    }
}

fn number_base_out(base: model::NumberBase) -> NumberBase {
    match base {
        model::NumberBase::Float => NumberBase::Float,
        model::NumberBase::Decimal => NumberBase::Decimal,
        model::NumberBase::Binary => NumberBase::Binary,
        model::NumberBase::Octal => NumberBase::Octal,
        model::NumberBase::Hex => NumberBase::Hex,
    }
}

fn bigint_base_in(base: BigintBase) -> model::BigintBase {
    match base {
        BigintBase::Decimal => model::BigintBase::Decimal,
        BigintBase::Binary => model::BigintBase::Binary,
        BigintBase::Octal => model::BigintBase::Octal,
        BigintBase::Hex => model::BigintBase::Hex,
    }
}

fn bigint_base_out(base: model::BigintBase) -> BigintBase {
    match base {
        model::BigintBase::Decimal => BigintBase::Decimal,
        model::BigintBase::Binary => BigintBase::Binary,
        model::BigintBase::Octal => BigintBase::Octal,
        model::BigintBase::Hex => BigintBase::Hex,
    }
}

fn operator_in(operator: UnaryOperator) -> model::UnaryOperator {
    match operator {
        UnaryOperator::UnaryPlus => model::UnaryOperator::UnaryPlus,
        UnaryOperator::UnaryNegation => model::UnaryOperator::UnaryNegation,
        UnaryOperator::LogicalNot => model::UnaryOperator::LogicalNot,
        UnaryOperator::BitwiseNot => model::UnaryOperator::BitwiseNot,
        UnaryOperator::Typeof => model::UnaryOperator::Typeof,
        UnaryOperator::Void => model::UnaryOperator::Void,
        UnaryOperator::Delete => model::UnaryOperator::Delete,
    }
}

fn operator_out(operator: model::UnaryOperator) -> UnaryOperator {
    match operator {
        model::UnaryOperator::UnaryPlus => UnaryOperator::UnaryPlus,
        model::UnaryOperator::UnaryNegation => UnaryOperator::UnaryNegation,
        model::UnaryOperator::LogicalNot => UnaryOperator::LogicalNot,
        model::UnaryOperator::BitwiseNot => UnaryOperator::BitwiseNot,
        model::UnaryOperator::Typeof => UnaryOperator::Typeof,
        model::UnaryOperator::Void => UnaryOperator::Void,
        model::UnaryOperator::Delete => UnaryOperator::Delete,
    }
}

fn raw_in(raw: &Option<Atom<'_>>) -> Option<String> {
    raw.as_ref().map(|atom| atom.as_str().to_string())
}

impl<'a> Bridge<'a> {
    pub fn new(ast: AstBuilder<'a>) -> Self {
        Bridge { ast, expressions: vec![], spreads: vec![], type_parameters: vec![] }
    }

    fn keep(&mut self, expression: Expression<'a>) -> model::NodeId {
        self.expressions.push(Some(expression));
        node_id(self.expressions.len() - 1)
    }

    fn take(&mut self, id: model::NodeId) -> Expression<'a> {
        self.expressions[id.index as usize].take().expect("a node has one place in the tree")
    }

    fn spread_in(&mut self, spread: ArenaBox<'a, SpreadElement<'a>>) -> model::SpreadElement {
        let span = span_in(spread.span);
        self.spreads.push(Some(spread));
        model::SpreadElement { span, argument: node_id(self.spreads.len() - 1) }
    }

    fn spread_out(&mut self, spread: model::SpreadElement) -> ArenaBox<'a, SpreadElement<'a>> {
        self.spreads[spread.argument.index as usize]
            .take()
            .expect("a node has one place in the tree")
    }

    /// Moves an expression into the tree of `known_methods`.
    pub fn expression_in(&mut self, expression: Expression<'a>) -> model::Expression {
        match expression {
            Expression::BooleanLiteral(lit) => {
                model::Expression::BooleanLiteral(model::BooleanLiteral {
                    span: span_in(lit.span),
                    value: lit.value,
                })
            }
            Expression::NullLiteral(lit) => {
                model::Expression::NullLiteral(model::NullLiteral { span: span_in(lit.span) })
            }
            Expression::NumericLiteral(lit) => {
                model::Expression::NumericLiteral(model::NumericLiteral {
                    span: span_in(lit.span),
                    value: Number { bits: lit.value.to_bits() },
                    raw: raw_in(&lit.raw),
                    base: number_base_in(lit.base),
                })
            }
            Expression::BigIntLiteral(lit) => {
                model::Expression::BigIntLiteral(model::BigIntLiteral {
                    span: span_in(lit.span),
                    raw: lit.raw.as_str().to_string(),
                    base: bigint_base_in(lit.base),
                })
            }
            Expression::RegExpLiteral(lit) => {
                let span = span_in(lit.span);
                let regex = self.keep(Expression::RegExpLiteral(lit));
                model::Expression::RegExpLiteral(model::RegExpLiteral { span, regex })
            }
            Expression::StringLiteral(lit) => {
                model::Expression::StringLiteral(model::StringLiteral {
                    span: span_in(lit.span),
                    value: lit.value.as_str().to_string(),
                    raw: raw_in(&lit.raw),
                })
            }
            Expression::Identifier(ident) => {
                let span = span_in(ident.span);
                let name = ident.name.as_str().to_string();
                let reference = self.keep(Expression::Identifier(ident));
                model::Expression::Identifier(model::IdentifierReference { span, name, reference })
            }
            Expression::ArrayExpression(array) => {
                let array = array.unbox();
                let elements =
                    array.elements.into_iter().map(|element| self.element_in(element)).collect();
                model::Expression::ArrayExpression(model::ArrayExpression {
                    span: span_in(array.span),
                    elements,
                    trailing_comma: array.trailing_comma.map(span_in),
                })
            }
            Expression::UnaryExpression(unary) => {
                let unary = unary.unbox();
                let argument = self.expression_in(unary.argument);
                model::Expression::UnaryExpression(Box::new(model::UnaryExpression {
                    span: span_in(unary.span),
                    operator: operator_in(unary.operator),
                    argument,
                }))
            }
            Expression::CallExpression(call) => {
                let call = call.unbox();
                let callee = self.expression_in(call.callee);
                let type_parameters = call.type_parameters.map(|parameters| {
                    self.type_parameters.push(Some(parameters));
                    node_id(self.type_parameters.len() - 1)
                });
                let arguments =
                    call.arguments.into_iter().map(|argument| self.argument_in(argument)).collect();
                model::Expression::CallExpression(Box::new(model::CallExpression {
                    span: span_in(call.span),
                    callee,
                    type_parameters,
                    arguments,
                    optional: call.optional,
                }))
            }
            Expression::StaticMemberExpression(member) => {
                let member = member.unbox();
                let object = self.expression_in(member.object);
                model::Expression::StaticMemberExpression(Box::new(model::StaticMemberExpression {
                    span: span_in(member.span),
                    object,
                    property: model::IdentifierName {
                        span: span_in(member.property.span),
                        name: member.property.name.as_str().to_string(),
                    },
                    optional: member.optional,
                }))
            }
            Expression::ComputedMemberExpression(member) => {
                let member = member.unbox();
                let object = self.expression_in(member.object);
                let expression = self.expression_in(member.expression);
                model::Expression::ComputedMemberExpression(Box::new(
                    model::ComputedMemberExpression {
                        span: span_in(member.span),
                        object,
                        expression,
                        optional: member.optional,
                    },
                ))
            }
            other => model::Expression::Other(self.keep(other)),
        }
    }

    fn element_in(&mut self, element: ArrayExpressionElement<'a>) -> model::ArrayExpressionElement {
        match element {
            ArrayExpressionElement::SpreadElement(spread) => {
                model::ArrayExpressionElement::SpreadElement(self.spread_in(spread))
            }
            ArrayExpressionElement::Elision(elision) => {
                model::ArrayExpressionElement::Elision(model::Elision {
                    span: span_in(elision.span()),
                })
            }
            other => model::ArrayExpressionElement::Expression(
                self.expression_in(other.into_expression()),
            ),
        }
    }

    fn argument_in(&mut self, argument: Argument<'a>) -> model::Argument {
        match argument {
            Argument::SpreadElement(spread) => {
                model::Argument::SpreadElement(self.spread_in(spread))
            }
            other => model::Argument::Expression(self.expression_in(other.into_expression())),
        }
    }

    /// Moves an expression back into the `oxc_ast` tree.
    pub fn expression_out(&mut self, expression: model::Expression) -> Expression<'a> {
        let ast = self.ast;
        match expression {
            model::Expression::BooleanLiteral(lit) => {
                ast.expression_boolean_literal(span_out(lit.span), lit.value)
            }
            model::Expression::NullLiteral(lit) => ast.expression_null_literal(span_out(lit.span)),
            model::Expression::NumericLiteral(lit) => ast.expression_numeric_literal(
                span_out(lit.span),
                f64::from_bits(lit.value.bits),
                lit.raw.map(|raw| ast.atom(&raw)),
                number_base_out(lit.base),
            ),
            model::Expression::BigIntLiteral(lit) => ast.expression_big_int_literal(
                span_out(lit.span),
                lit.raw,
                bigint_base_out(lit.base),
            ),
            model::Expression::RegExpLiteral(lit) => self.take(lit.regex),
            model::Expression::StringLiteral(lit) => ast.expression_string_literal(
                span_out(lit.span),
                lit.value,
                lit.raw.map(|raw| ast.atom(&raw)),
            ),
            model::Expression::Identifier(ident) => self.take(ident.reference),
            model::Expression::ArrayExpression(array) => {
                let mut elements = ast.vec();
                for element in array.elements {
                    elements.push(self.element_out(element));
                }
                ast.expression_array(
                    span_out(array.span),
                    elements,
                    array.trailing_comma.map(span_out),
                )
            }
            model::Expression::UnaryExpression(unary) => {
                let argument = self.expression_out(unary.argument);
                ast.expression_unary(span_out(unary.span), operator_out(unary.operator), argument)
            }
            model::Expression::CallExpression(call) => {
                let callee = self.expression_out(call.callee);
                let type_parameters = call
                    .type_parameters
                    .and_then(|id| self.type_parameters[id.index as usize].take());
                let mut arguments = ast.vec();
                for argument in call.arguments {
                    arguments.push(self.argument_out(argument));
                }
                ast.expression_call(
                    span_out(call.span),
                    callee,
                    type_parameters,
                    arguments,
                    call.optional,
                )
            }
            model::Expression::StaticMemberExpression(member) => {
                let object = self.expression_out(member.object);
                let property = ast
                    .identifier_name(span_out(member.property.span), member.property.name.as_str());
                Expression::StaticMemberExpression(ast.alloc_static_member_expression(
                    span_out(member.span),
                    object,
                    property,
                    member.optional,
                ))
            }
            model::Expression::ComputedMemberExpression(member) => {
                let object = self.expression_out(member.object);
                let expression = self.expression_out(member.expression);
                Expression::ComputedMemberExpression(ast.alloc_computed_member_expression(
                    span_out(member.span),
                    object,
                    expression,
                    member.optional,
                ))
            }
            model::Expression::Other(id) => self.take(id),
        }
    }

    fn element_out(
        &mut self,
        element: model::ArrayExpressionElement,
    ) -> ArrayExpressionElement<'a> {
        match element {
            model::ArrayExpressionElement::SpreadElement(spread) => {
                ArrayExpressionElement::SpreadElement(self.spread_out(spread))
            }
            model::ArrayExpressionElement::Elision(elision) => {
                self.ast.array_expression_element_elision(span_out(elision.span))
            }
            model::ArrayExpressionElement::Expression(expression) => {
                ArrayExpressionElement::from(self.expression_out(expression))
            }
        }
    }

    fn argument_out(&mut self, argument: model::Argument) -> Argument<'a> {
        match argument {
            model::Argument::SpreadElement(spread) => {
                Argument::SpreadElement(self.spread_out(spread))
            }
            model::Argument::Expression(expression) => {
                Argument::from(self.expression_out(expression))
            }
        }
    }
}

struct Ctx<'a, 'b>(&'b TraverseCtx<'a>);

impl MayHaveSideEffects for Ctx<'_, '_> {
    fn is_global_reference(&self, ident: &IdentifierReference<'_>) -> bool {
        ident.is_global_reference(self.0.symbols())
    }
}

impl<'a> ConstantEvaluation<'a> for Ctx<'a, '_> {}

/// The pass, as a traversal of a program.
pub struct KnownMethods {
    pub pass: PeepholeReplaceKnownMethods,
}

impl<'a> Traverse<'a> for KnownMethods {
    fn exit_expression(&mut self, node: &mut Expression<'a>, ctx: &mut TraverseCtx<'a>) {
        if let Expression::Identifier(ident) = &*node {
            if ident.is_global_reference(ctx.symbols()) {
                let value = match ident.name.as_str() {
                    "NaN" => f64::NAN,
                    "Infinity" => f64::INFINITY,
                    _ => return,
                };
                *node = ctx.ast.expression_numeric_literal(
                    ident.span,
                    value,
                    None,
                    NumberBase::Decimal,
                );
            }
        }
        let Expression::CallExpression(call) = &*node else { return };
        let context = context_of(call, ctx);
        let ast = ctx.ast;
        let mut bridge = Bridge::new(ast);
        let mut expression = bridge.expression_in(ast.move_expression(node));
        assert!(PeepholeReplaceKnownMethods::supports(&expression, &context));
        self.pass.exit_expression(&mut expression, &context);
        *node = bridge.expression_out(expression);
    }
}

/// What a traversal knows about a call.
fn context_of<'a>(
    call: &CallExpression<'a>,
    ctx: &TraverseCtx<'a>,
) -> model_context::TraverseCtx {
    let parent = match ctx.parent() {
        Ancestor::StaticMemberExpressionObject(member) => {
            model_context::Ancestor::StaticMemberExpressionObject {
                property: member.property().name.as_str().to_string(),
            }
        }
        _ => model_context::Ancestor::Other,
    };
    let object = match &call.callee {
        Expression::StaticMemberExpression(member) => Some(&member.object),
        Expression::ComputedMemberExpression(member) => Some(&member.object),
        _ => None,
    };
    let evaluation = Ctx(ctx);
    let number_values = call
        .arguments
        .iter()
        .map(|argument| {
            let expression = Argument::as_expression(argument)?;
            let value = evaluation.get_side_free_number_value(expression)?;
            Some(Number { bits: value.to_bits() })
        })
        .collect();
    let string_values = call
        .arguments
        .iter()
        .map(|argument| {
            let expression = Argument::as_expression(argument)?;
            evaluation.get_side_free_string_value(expression).map(|value| value.into_owned())
        })
        .collect();
    model_context::TraverseCtx {
        parent,
        number_values,
        string_values,
        object_is_global_reference: matches!(
            object,
            Some(Expression::Identifier(ident)) if evaluation.is_global_reference(ident)
        ),
        number_text: match object {
            Some(Expression::NumericLiteral(lit)) => lit.value.to_js_string(),
            _ => String::new(),
        },
    }
}

fn run(source_text: &str, folds: bool) -> (String, bool) {
    let allocator = Allocator::default();
    let options = ParseOptions { preserve_parens: false, ..ParseOptions::default() };
    let mut program =
        Parser::new(&allocator, source_text, SourceType::mjs()).with_options(options).parse().program;
    let mut pass = KnownMethods { pass: PeepholeReplaceKnownMethods::new() };
    if folds {
        let (symbols, scopes) = SemanticBuilder::new()
            .build(&program)
            .semantic
            .into_symbol_table_and_scope_tree();
        traverse_mut(&mut pass, &allocator, &mut program, symbols, scopes);
    }
    let options = CodegenOptions { single_quote: true, ..CodegenOptions::default() };
    (Codegen::new().with_options(options).build(&program).code, pass.pass.changed)
}

fn test(source_text: &str, expected: &str) {
    let (result, changed) = run(source_text, true);
    let (expected, _) = run(expected, false);
    assert_eq!(result, expected, "for {source_text}");
    let (source, _) = run(source_text, false);
    if source != expected {
        assert!(changed, "for {source_text}");
    }
}

fn test_same(source_text: &str) {
    test(source_text, source_text);
    assert!(!run(source_text, true).1, "for {source_text}");
}

fn fold_same(js: &str) {
    test_same(js);
}

fn fold(js: &str, expected: &str) {
    test(js, expected);
}

#[test]
fn test_string_index_of() {
    fold("x = 'abcdef'.indexOf('g')", "x = -1");
    fold("x = 'abcdef'.indexOf('b')", "x = 1");
    fold("x = 'abcdefbe'.indexOf('b', 2)", "x = 6");
    fold("x = 'abcdef'.indexOf('bcd')", "x = 1");
    fold("x = 'abcdefsdfasdfbcdassd'.indexOf('bcd', 4)", "x = 13");

    fold("x = 'abcdef'.lastIndexOf('b')", "x = 1");
    fold("x = 'abcdefbe'.lastIndexOf('b')", "x = 6");
    fold("x = 'abcdefbe'.lastIndexOf('b', 5)", "x = 1");

    // Both elements must be strings. Don't do anything if either one is not
    // string.
    // TODO: cast first arg to a string, and fold if possible.
    // fold("x = 'abc1def'.indexOf(1)", "x = 3");
    // fold("x = 'abcNaNdef'.indexOf(NaN)", "x = 3");
    // fold("x = 'abcundefineddef'.indexOf(undefined)", "x = 3");
    // fold("x = 'abcnulldef'.indexOf(null)", "x = 3");
    // fold("x = 'abctruedef'.indexOf(true)", "x = 3");

    // The following test case fails with JSC_PARSE_ERROR. Hence omitted.
    // fold_same("x = 1.indexOf('bcd');");
    fold_same("x = NaN.indexOf('bcd')");
    fold_same("x = undefined.indexOf('bcd')");
    fold_same("x = null.indexOf('bcd')");
    fold_same("x = true.indexOf('bcd')");
    fold_same("x = false.indexOf('bcd')");

    // Avoid dealing with regex or other types.
    fold_same("x = 'abcdef'.indexOf(/b./)");
    fold_same("x = 'abcdef'.indexOf({a:2})");
    fold_same("x = 'abcdef'.indexOf([1,2])");

    // Template Strings
    fold_same("x = `abcdef`.indexOf('b')");
    fold_same("x = `Hello ${name}`.indexOf('a')");
    fold_same("x = tag `Hello ${name}`.indexOf('a')");
}

#[test]
fn test_fold_string_replace() {
    fold("'c'.replace('c','x')", "'x'");
    fold("'ac'.replace('c','x')", "'ax'");
    fold("'ca'.replace('c','x')", "'xa'");
    fold("'ac'.replace('c','xxx')", "'axxx'");
    fold("'ca'.replace('c','xxx')", "'xxxa'");

    // only one instance replaced
    fold("'acaca'.replace('c','x')", "'axaca'");
    fold("'ab'.replace('','x')", "'xab'");

    fold_same("'acaca'.replace(/c/,'x')"); // this will affect the global RegExp props
    fold_same("'acaca'.replace(/c/g,'x')"); // this will affect the global RegExp props

    // not a literal
    fold_same("x.replace('x','c')");

    fold_same("'Xyz'.replace('Xyz', '$$')"); // would fold to '$'
    fold_same("'PreXyzPost'.replace('Xyz', '$&')"); // would fold to 'PreXyzPost'
    fold_same("'PreXyzPost'.replace('Xyz', '$`')"); // would fold to 'PrePrePost'
    fold_same("'PreXyzPost'.replace('Xyz', '$\\'')"); // would fold to  'PrePostPost'
    fold_same("'PreXyzPostXyz'.replace('Xyz', '$\\'')"); // would fold to 'PrePostXyzPostXyz'
    fold_same("'123'.replace('2', '$`')"); // would fold to '113'
}

#[test]
fn test_fold_string_replace_all() {
    fold("x = 'abcde'.replaceAll('bcd','c')", "x = 'ace'");
    fold("x = 'abcde'.replaceAll('c','xxx')", "x = 'abxxxde'");
    fold("x = 'abcde'.replaceAll('xxx','c')", "x = 'abcde'");
    fold("'ab'.replaceAll('','x')", "'xaxbx'");

    fold("x = 'c_c_c'.replaceAll('c','x')", "x = 'x_x_x'");

    fold_same("x = 'acaca'.replaceAll(/c/,'x')"); // this should throw
    fold_same("x = 'acaca'.replaceAll(/c/g,'x')"); // this will affect the global RegExp props

    // not a literal
    fold_same("x.replaceAll('x','c')");

    fold_same("'Xyz'.replaceAll('Xyz', '$$')"); // would fold to '$'
    fold_same("'PreXyzPost'.replaceAll('Xyz', '$&')"); // would fold to 'PreXyzPost'
    fold_same("'PreXyzPost'.replaceAll('Xyz', '$`')"); // would fold to 'PrePrePost'
    fold_same("'PreXyzPost'.replaceAll('Xyz', '$\\'')"); // would fold to  'PrePostPost'
    fold_same("'PreXyzPostXyz'.replaceAll('Xyz', '$\\'')"); // would fold to 'PrePostXyzPost'
    fold_same("'123'.replaceAll('2', '$`')"); // would fold to '113'
}

#[test]
fn test_fold_string_substring() {
    fold("x = 'abcde'.substring(0,2)", "x = 'ab'");
    fold("x = 'abcde'.substring(1,2)", "x = 'b'");
    fold("x = 'abcde'.substring(2)", "x = 'cde'");

    // we should be leaving negative, out-of-bound, and inverted indices alone for now
    fold_same("x = 'abcde'.substring(-1)");
    fold_same("x = 'abcde'.substring(1, -2)");
    fold_same("x = 'abcde'.substring(1, 2, 3)");
    fold_same("x = 'abcde'.substring(2, 0)");
    fold_same("x = 'a'.substring(0, 2)");

    // Template strings
    fold_same("x = `abcdef`.substring(0,2)");
    fold_same("x = `abcdef ${abc}`.substring(0,2)");
}

#[test]
fn test_fold_string_slice() {
    fold("x = 'abcde'.slice(0,2)", "x = 'ab'");
    fold("x = 'abcde'.slice(1,2)", "x = 'b'");
    fold("x = 'abcde'.slice(2)", "x = 'cde'");

    // we should be leaving negative, out-of-bound, and inverted indices alone for now
    fold_same("x = 'abcde'.slice(-1)");
    fold_same("x = 'abcde'.slice(1, -2)");
    fold_same("x = 'abcde'.slice(1, 2, 3)");
    fold_same("x = 'abcde'.slice(2, 0)");
    fold_same("x = 'a'.slice(0, 2)");

    // Template strings
    fold_same("x = `abcdef`.slice(0,2)");
    fold_same("x = `abcdef ${abc}`.slice(0,2)");
}

#[test]
fn test_fold_string_char_at() {
    fold("x = 'abcde'.charAt(0)", "x = 'a'");
    fold("x = 'abcde'.charAt(1)", "x = 'b'");
    fold("x = 'abcde'.charAt(2)", "x = 'c'");
    fold("x = 'abcde'.charAt(3)", "x = 'd'");
    fold("x = 'abcde'.charAt(4)", "x = 'e'");
    fold("x = 'abcde'.charAt(5)", "x = ''");
    fold("x = 'abcde'.charAt(-1)", "x = ''");
    fold("x = 'abcde'.charAt()", "x = 'a'");
    fold_same("x = 'abcde'.charAt(0, ++z)");
    fold_same("x = 'abcde'.charAt(y)");
    fold_same("x = 'abcde'.charAt(null)"); // or x = 'a'
    fold_same("x = 'abcde'.charAt(true)"); // or x = 'b'
                                           // fold("x = '\\ud834\udd1e'.charAt(0)", "x = '\\ud834'");
                                           // fold("x = '\\ud834\udd1e'.charAt(1)", "x = '\\udd1e'");

    // Template strings
    fold_same("x = `abcdef`.charAt(0)");
    fold_same("x = `abcdef ${abc}`.charAt(0)");
}

#[test]
fn test_fold_string_char_code_at() {
    fold("x = 'abcde'.charCodeAt()", "x = 97");
    fold("x = 'abcde'.charCodeAt(0)", "x = 97");
    fold("x = 'abcde'.charCodeAt(1)", "x = 98");
    fold("x = 'abcde'.charCodeAt(2)", "x = 99");
    fold("x = 'abcde'.charCodeAt(3)", "x = 100");
    fold("x = 'abcde'.charCodeAt(4)", "x = 101");
    fold_same("x = 'abcde'.charCodeAt(5)");
    fold("x = 'abcde'.charCodeAt(-1)", "x = NaN");
    fold_same("x = 'abcde'.charCodeAt(y)");
    fold("x = 'abcde'.charCodeAt()", "x = 97");
    fold("x = 'abcde'.charCodeAt(0, ++z)", "x = 97");
    fold("x = 'abcde'.charCodeAt(null)", "x = 97");
    fold("x = 'abcde'.charCodeAt(true)", "x = 98");
    // fold("x = '\\ud834\udd1e'.charCodeAt(0)", "x = 55348");
    // fold("x = '\\ud834\udd1e'.charCodeAt(1)", "x = 56606");
    fold_same("x = `abcdef`.charCodeAt(0)");
    fold_same("x = `abcdef ${abc}`.charCodeAt(0)");
}

#[test]
fn test_to_upper() {
    fold("'a'.toUpperCase()", "'A'");
    fold("'A'.toUpperCase()", "'A'");
    fold("'aBcDe'.toUpperCase()", "'ABCDE'");

    fold_same("`abc`.toUpperCase()");
    fold_same("`a ${bc}`.toUpperCase()");

    /*
     * Make sure things aren't totally broken for non-ASCII strings, non-exhaustive.
     *
     * <p>This includes things like:
     *
     * <ul>
     *   <li>graphemes with multiple code-points
     *   <li>graphemes represented by multiple graphemes in other cases
     *   <li>graphemes whose case changes are not round-trippable
     *   <li>graphemes that change case in a position sentitive way
     * </ul>
     */
    fold("'\u{0049}'.toUpperCase()", "'\u{0049}'");
    fold("'\u{0069}'.toUpperCase()", "'\u{0049}'");
    fold("'\u{0130}'.toUpperCase()", "'\u{0130}'");
    fold("'\u{0131}'.toUpperCase()", "'\u{0049}'");
    fold("'\u{0049}\u{0307}'.toUpperCase()", "'\u{0049}\u{0307}'");
    fold("'ß'.toUpperCase()", "'SS'");
    fold("'SS'.toUpperCase()", "'SS'");
    fold("'σ'.toUpperCase()", "'Σ'");
    fold("'σς'.toUpperCase()", "'ΣΣ'");
}

#[test]
fn test_to_lower() {
    fold("'A'.toLowerCase()", "'a'");
    fold("'a'.toLowerCase()", "'a'");
    fold("'aBcDe'.toLowerCase()", "'abcde'");

    fold_same("`ABC`.toLowerCase()");
    fold_same("`A ${BC}`.toLowerCase()");

    /*
     * Make sure things aren't totally broken for non-ASCII strings, non-exhaustive.
     *
     * <p>This includes things like:
     *
     * <ul>
     *   <li>graphemes with multiple code-points
     *   <li>graphemes with multiple representations
     *   <li>graphemes represented by multiple graphemes in other cases
     *   <li>graphemes whose case changes are not round-trippable
     *   <li>graphemes that change case in a position sentitive way
     * </ul>
     */
    fold("'\u{0049}'.toLowerCase()", "'\u{0069}'");
    fold("'\u{0069}'.toLowerCase()", "'\u{0069}'");
    fold("'\u{0130}'.toLowerCase()", "'\u{0069}\u{0307}'");
    fold("'\u{0131}'.toLowerCase()", "'\u{0131}'");
    fold("'\u{0049}\u{0307}'.toLowerCase()", "'\u{0069}\u{0307}'");
    fold("'ß'.toLowerCase()", "'ß'");
    fold("'SS'.toLowerCase()", "'ss'");
    fold("'Σ'.toLowerCase()", "'σ'");
    fold("'ΣΣ'.toLowerCase()", "'σς'");
}

#[test]
fn test_fold_concat_chaining() {
    // array
    fold("[1,2].concat(1).concat(2,['abc']).concat('abc')", "[1,2,1,2,'abc','abc']");
    fold("[].concat(['abc']).concat(1).concat([2,3])", "['abc',1,2,3]");

    fold("var x, y; [1].concat(x).concat(y)", "var x, y; [1].concat(x, y)");
    fold("var y; [1].concat(x).concat(y)", "var y; [1].concat(x, y)"); // x might have a getter that updates y, but that side effect is preserved correctly
    fold("var x; [1].concat(x.a).concat(x)", "var x; [1].concat(x.a, x)"); // x.a might have a getter that updates x, but that side effect is preserved correctly

    // string
    fold("'1'.concat(1).concat(2,['abc']).concat('abc')", "'1'.concat(1,2,['abc'],'abc')");
    fold("''.concat(['abc']).concat(1).concat([2,3])", "''.concat(['abc'],1,[2,3])");
    fold_same("''.concat(1)");

    fold("var x, y; ''.concat(x).concat(y)", "var x, y; ''.concat(x, y)");
    fold("var y; ''.concat(x).concat(y)", "var y; ''.concat(x, y)"); // x might have a getter that updates y, but that side effect is preserved correctly
    fold("var x; ''.concat(x.a).concat(x)", "var x; ''.concat(x.a, x)"); // x.a might have a getter that updates x, but that side effect is preserved correctly

    // other
    fold_same("obj.concat([1,2]).concat(1)");
}

#[test]
fn test_remove_array_literal_from_front_of_concat() {
    fold("[].concat([1,2,3],1)", "[1,2,3,1]");

    fold_same("[1,2,3].concat(foo())");
    // Call method with the same name as Array.prototype.concat
    fold_same("obj.concat([1,2,3])");

    fold("[].concat(1,[1,2,3])", "[1,1,2,3]");
    fold("[].concat(1)", "[1]");
    fold("[].concat([1])", "[1]");

    // Chained folding of empty array lit
    fold("[].concat([], [1,2,3], [4])", "[1,2,3,4]");
    fold("[].concat([]).concat([1]).concat([2,3])", "[1,2,3]");

    fold("[].concat(1, x)", "[1].concat(x)"); // x might be an array or an object with `Symbol.isConcatSpreadable`
    fold("[].concat(1, ...x)", "[1].concat(...x)");
    fold_same("[].concat(x, 1)");
}

#[test]
fn test_fold_string_from_char_code() {
    test("String.fromCharCode()", "''");
    test("String.fromCharCode(0)", "'\\0'");
    test("String.fromCharCode(120)", "'x'");
    test("String.fromCharCode(120, 121)", "'xy'");
    test_same("String.fromCharCode(55358, 56768)");
    test("String.fromCharCode(0x10000)", "'\\0'");
    test("String.fromCharCode(0x10078, 0x10079)", "'xy'");
    test("String.fromCharCode(0x1_0000_FFFF)", "'\u{ffff}'");
    test("String.fromCharCode(NaN)", "'\\0'");
    test("String.fromCharCode(-Infinity)", "'\\0'");
    test("String.fromCharCode(Infinity)", "'\\0'");
    test("String.fromCharCode(null)", "'\\0'");
    test("String.fromCharCode(undefined)", "'\\0'");
    test("String.fromCharCode('123')", "'{'");
    test_same("String.fromCharCode(x)");
    test("String.fromCharCode('x')", "'\\0'");
    test("String.fromCharCode('0.5')", "'\\0'");
}

#[test]
fn test_to_string() {
    test("false['toString']()", "'false';");
    test("false.toString()", "'false';");
    test("true.toString()", "'true';");
    test("'xy'.toString()", "'xy';");
    test("0 .toString()", "'0';");
    test("123 .toString()", "'123';");
    test("NaN.toString()", "'NaN';");
    test("Infinity.toString()", "'Infinity';");
    test("1n.toString()", "'1'");
    test_same("254n.toString(16);"); // unimplemented
                                     // test("/a\\\\b/ig.toString()", "'/a\\\\\\\\b/ig';");
    test_same("null.toString()"); // type error

    test("100 .toString(0)", "100 .toString(0)");
    test("100 .toString(1)", "100 .toString(1)");
    test("100 .toString(2)", "'1100100'");
    test("100 .toString(5)", "'400'");
    test("100 .toString(8)", "'144'");
    test("100 .toString(13)", "'79'");
    test("100 .toString(16)", "'64'");
    test("10000 .toString(19)", "'18d6'");
    test("10000 .toString(23)", "'iki'");
    test("1000000 .toString(29)", "'1c01m'");
    test("1000000 .toString(31)", "'12hi2'");
    test("1000000 .toString(36)", "'lfls'");
    test("0 .toString(36)", "'0'");
    test("0.5.toString()", "'0.5'");

    test("false.toString(b)", "false.toString(b)");
    test("true.toString(b)", "true.toString(b)");
    test("'xy'.toString(b)", "'xy'.toString(b)");
    test("123 .toString(b)", "123 .toString(b)");
    test("1e99.toString(b)", "1e99.toString(b)");
    test("/./.toString(b)", "/./.toString(b)");
}

#[test]
fn longer_programs() {
    fold("x = 'a'.toUpperCase().toLowerCase() + f('b'.charAt(0))", "x = 'a' + f('b')");
    fold("x = 'abc'['indexOf']('b')", "x = 1");
    fold("x = ' a '.trim().concat(b).concat(c)", "x = 'a'.concat(b, c)");
    fold("x = [].concat(...a).concat(1, f())", "x = [].concat(...a, 1, f())");
    fold("x = [1,,2].concat([,3])", "x = [1,,2,,3]");
    fold("x = [1].concat(2).length", "x = [1,2].length");
    fold("x = 1e21.toString() + 1.5.toString()", "x = '1e+21' + '1.5'");
    fold("x = Anything.fromCharCode(97)", "x = 'a'");
}

#[test]
fn programs_that_stay() {
    fold_same("x = 'a'?.toUpperCase()");
    fold_same("x = [].concat(1).concat(2).length");
    fold_same("x = 'abc'.substring(5)");
    fold_same("x = 'abc'.substring(i)");
    fold_same("x = ''.substring(i, i + 1)");
    fold_same("x = 'abc'.slice(1, i)");
    fold_same("x = 'abc'.slice(...i)");
    fold_same("import { String } from 's'; x = String.fromCharCode(97)");
    fold_same("x = f(a).concat(1).concat(2)");
    fold_same("x = /a/.toString()");
}
