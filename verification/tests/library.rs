//! The parts of the pass, one by one.
use known_methods::ast::{
    Argument, ArrayExpression, ArrayExpressionElement, BigIntLiteral, BigintBase, BooleanLiteral,
    CallExpression, ComputedMemberExpression, Elision, Expression, IdentifierName,
    IdentifierReference, NodeId, NullLiteral, NumberBase, NumericLiteral, RegExpLiteral, Span,
    SpreadElement, StaticMemberExpression, StringLiteral, UnaryExpression, UnaryOperator,
};
use known_methods::context::{Ancestor, TraverseCtx};
use known_methods::known_methods::PeepholeReplaceKnownMethods as Pass;
use known_methods::number::Number;

const AT: Span = Span { start: 3, end: 17 };
const ELSEWHERE: Span = Span { start: 20, end: 21 };

fn num(value: f64) -> Number {
    Number { bits: value.to_bits() }
}

fn text(value: &str) -> Expression {
    Expression::StringLiteral(StringLiteral {
        span: ELSEWHERE,
        value: value.to_string(),
        raw: Some(format!("'{value}'")),
    })
}

fn number(value: f64) -> Expression {
    Expression::NumericLiteral(NumericLiteral {
        span: ELSEWHERE,
        value: num(value),
        raw: Some(value.to_string()),
        base: NumberBase::Decimal,
    })
}

fn negative(value: f64) -> Expression {
    unary(UnaryOperator::UnaryNegation, number(value))
}

fn unary(operator: UnaryOperator, argument: Expression) -> Expression {
    Expression::UnaryExpression(Box::new(UnaryExpression { span: ELSEWHERE, operator, argument }))
}

fn ident(name: &str) -> Expression {
    Expression::Identifier(IdentifierReference {
        span: ELSEWHERE,
        name: name.to_string(),
        reference: NodeId { index: 7 },
    })
}

fn regex() -> Expression {
    Expression::RegExpLiteral(RegExpLiteral { span: ELSEWHERE, regex: NodeId { index: 8 } })
}

fn other(index: u32) -> Expression {
    Expression::Other(NodeId { index })
}

fn bigint(raw: &str, base: BigintBase) -> Expression {
    Expression::BigIntLiteral(BigIntLiteral { span: ELSEWHERE, raw: raw.to_string(), base })
}

fn boolean(value: bool) -> Expression {
    Expression::BooleanLiteral(BooleanLiteral { span: ELSEWHERE, value })
}

fn null() -> Expression {
    Expression::NullLiteral(NullLiteral { span: ELSEWHERE })
}

fn array(elements: Vec<ArrayExpressionElement>) -> Expression {
    Expression::ArrayExpression(ArrayExpression {
        span: ELSEWHERE,
        elements,
        trailing_comma: Some(AT),
    })
}

fn numbers(values: &[f64]) -> Expression {
    array(values.iter().map(|v| ArrayExpressionElement::Expression(number(*v))).collect())
}

fn arg(e: Expression) -> Argument {
    Argument::Expression(e)
}

fn spread() -> Argument {
    Argument::SpreadElement(SpreadElement { span: ELSEWHERE, argument: NodeId { index: 9 } })
}

fn member(object: Expression, name: &str) -> Expression {
    Expression::StaticMemberExpression(Box::new(StaticMemberExpression {
        span: ELSEWHERE,
        object,
        property: IdentifierName { span: ELSEWHERE, name: name.to_string() },
        optional: false,
    }))
}

fn computed(object: Expression, expression: Expression, optional: bool) -> Expression {
    Expression::ComputedMemberExpression(Box::new(ComputedMemberExpression {
        span: ELSEWHERE,
        object,
        expression,
        optional,
    }))
}

fn call_of(callee: Expression, arguments: Vec<Argument>) -> CallExpression {
    CallExpression { span: AT, callee, type_parameters: None, arguments, optional: false }
}

fn args(arguments: Vec<Argument>) -> CallExpression {
    call_of(null(), arguments)
}

fn call(object: Expression, name: &str, arguments: Vec<Argument>) -> Expression {
    Expression::CallExpression(Box::new(call_of(member(object, name), arguments)))
}

fn context() -> TraverseCtx {
    TraverseCtx {
        parent: Ancestor::Other,
        number_values: vec![],
        string_values: vec![],
        object_is_global_reference: false,
        number_text: String::new(),
    }
}

fn with_numbers(values: Vec<Option<f64>>) -> TraverseCtx {
    let mut ctx = context();
    ctx.number_values = values.into_iter().map(|v| v.map(num)).collect();
    ctx
}

fn with_strings(values: Vec<Option<&str>>) -> TraverseCtx {
    let mut ctx = context();
    ctx.string_values = values.into_iter().map(|v| v.map(str::to_string)).collect();
    ctx
}

fn inside(property: &str) -> TraverseCtx {
    let mut ctx = context();
    ctx.parent = Ancestor::StaticMemberExpressionObject { property: property.to_string() };
    ctx
}

fn text_at(value: &str) -> Option<Expression> {
    Some(Expression::StringLiteral(StringLiteral {
        span: AT,
        value: value.to_string(),
        raw: None,
    }))
}

fn number_at(value: f64) -> Option<Expression> {
    Some(Expression::NumericLiteral(NumericLiteral {
        span: AT,
        value: num(value),
        raw: None,
        base: NumberBase::Decimal,
    }))
}

fn exit(mut e: Expression, ctx: &TraverseCtx) -> (Expression, bool) {
    let mut pass = Pass::new();
    pass.exit_expression(&mut e, ctx);
    (e, pass.changed)
}

#[test]
fn new_pass_has_changed_nothing() {
    assert!(!Pass::new().changed);
}

#[test]
fn radix_digits() {
    assert_eq!(Pass::format_radix(0, 2), "0");
    assert_eq!(Pass::format_radix(35, 36), "z");
    assert_eq!(Pass::format_radix(36, 36), "10");
    assert_eq!(Pass::format_radix(u32::MAX, 2), "1".repeat(32));
    assert_eq!(Pass::format_radix(u32::MAX, 16), "ffffffff");
    assert_eq!(Pass::format_radix(u32::MAX, 10), "4294967295");
}

#[test]
fn radix_digits_read_back() {
    for radix in 2..=36 {
        for n in [0, 1, 35, 36, 1000, 123_456_789, u32::MAX] {
            let digits = Pass::format_radix(n, radix);
            assert_eq!(u32::from_str_radix(&digits, radix), Ok(n));
            assert!(digits == "0" || !digits.starts_with('0'));
        }
    }
}

#[test]
fn numbers_from_integers() {
    for n in [0u64, 1, 2, 65535, 1 << 52, (1 << 53) - 1, 1 << 53, (1 << 53) + 1, (1 << 53) + 2] {
        assert_eq!(Number::from_u64(n), num(n as f64));
    }
    for n in [(1 << 53) + 3, (1 << 54) + 2, (1 << 54) + 6, u64::MAX, u64::MAX - 1023, 1 << 63] {
        assert_eq!(Number::from_u64(n), num(n as f64));
    }
    for n in [0i64, -1, 1, -(1 << 53) - 1, i64::MIN, i64::MAX] {
        assert_eq!(Number::from_i64(n), num(n as f64));
    }
}

#[test]
fn numbers_compare() {
    let values = [
        f64::NEG_INFINITY,
        -1e300,
        -2.5,
        -1.0,
        -5e-324,
        -0.0,
        0.0,
        5e-324,
        2.2250738585072014e-308,
        0.5,
        1.0,
        4294967296.0,
        1e300,
        f64::INFINITY,
        f64::NAN,
    ];
    for a in values {
        for b in values {
            assert_eq!(num(a).is_below(num(b)), a < b, "{a} < {b}");
        }
        for n in [0u64, 1, 2, 65536, (1 << 53) + 1, u64::MAX] {
            assert_eq!(num(a).is_below_integer(n), a < n as f64, "{a} < {n}");
            assert_eq!(num(a).is_above_integer(n), a > n as f64, "{a} > {n}");
        }
        assert_eq!(num(a).negated(), num(-a));
        assert_eq!(num(a).is_nan(), a.is_nan());
        assert_eq!(num(a).is_infinite(), a.is_infinite());
        assert_eq!(num(a).is_negative(), a.is_sign_negative());
        assert_eq!(num(a).is_whole(), a.fract() == 0.0);
    }
    assert!(Number::not_a_number().is_nan());
    assert_eq!(Number::not_a_number(), num(f64::NAN));
}

#[test]
fn numbers_to_integers() {
    assert_eq!(num(0.0).to_integer(), Some(0));
    assert_eq!(num(-0.0).to_integer(), Some(0));
    assert_eq!(num(36.0).to_integer(), Some(36));
    assert_eq!(num(-7.0).to_integer(), Some(-7));
    assert_eq!(num(9007199254740991.0).to_integer(), Some(9007199254740991));
    assert_eq!(num(9007199254740992.0).to_integer(), None);
    assert_eq!(num(0.5).to_integer(), None);
    assert_eq!(num(f64::NAN).to_integer(), None);
    assert_eq!(num(f64::INFINITY).to_integer(), None);
}

#[test]
fn numbers_to_int_32() {
    for (value, expected) in [
        (0.0, 0),
        (-0.0, 0),
        (1.9, 1),
        (-1.9, -1),
        (2147483647.0, i32::MAX),
        (2147483648.0, i32::MIN),
        (-2147483648.0, i32::MIN),
        (-2147483649.0, i32::MAX),
        (4294967295.0, -1),
        (4294967296.0, 0),
        (4294967301.5, 5),
        (-4294967301.5, -5),
        (9007199254740993.0, 0),
        (1e21, -559939584),
        (5e-324, 0),
        (1.7976931348623157e308, 0),
        (f64::NAN, 0),
        (f64::INFINITY, 0),
        (f64::NEG_INFINITY, 0),
    ] {
        assert_eq!(num(value).to_int_32(), expected, "{value}");
    }
}

#[test]
fn literals_are_told_apart() {
    for e in [boolean(true), null(), number(1.0), text(""), regex(), bigint("1n", BigintBase::Hex)]
    {
        assert!(e.is_literal());
    }
    for e in [ident("x"), numbers(&[]), other(1), negative(1.0), call(text(""), "trim", vec![])] {
        assert!(!e.is_literal());
    }
}

#[test]
fn written_literals_have_no_source_text() {
    assert_eq!(Some(Expression::string_literal(AT, "q".to_string())), text_at("q"));
    assert_eq!(Some(Expression::numeric_literal(AT, num(2.5))), number_at(2.5));
}

#[test]
fn context_tells_what_it_knows() {
    let ctx = with_numbers(vec![None, Some(2.0)]);
    assert_eq!(ctx.get_side_free_number_value(0), None);
    assert_eq!(ctx.get_side_free_number_value(1), Some(num(2.0)));
    assert_eq!(ctx.get_side_free_number_value(2), None);
    assert_eq!(ctx.get_side_free_string_value(0), None);
    let ctx = with_strings(vec![Some("a"), None]);
    assert_eq!(ctx.get_side_free_string_value(0), Some("a"));
    assert_eq!(ctx.get_side_free_string_value(1), None);
    assert!(!ctx.parent_is_static_member() && !ctx.parent_is_concat());
    assert!(inside("length").parent_is_static_member() && !inside("length").parent_is_concat());
    assert!(inside("concat").parent_is_static_member() && inside("concat").parent_is_concat());
}

#[test]
fn casing() {
    let none = args(vec![]);
    let object = text(" \t\u{a0}\u{feff}AbÇ\u{3000}\n");
    assert_eq!(
        Pass::try_fold_string_casing(&none, "trim", &object),
        text_at("\u{feff}AbÇ")
    );
    assert_eq!(Pass::try_fold_string_casing(&none, "toLowerCase", &text("AbÇ")), text_at("abç"));
    assert_eq!(Pass::try_fold_string_casing(&none, "toUpperCase", &text("abç")), text_at("ABÇ"));
    assert_eq!(Pass::try_fold_string_casing(&none, "trim", &text(" \n ")), text_at(""));
    assert_eq!(Pass::try_fold_string_casing(&none, "trimStart", &text(" a")), None);
    assert_eq!(Pass::try_fold_string_casing(&none, "trim", &other(1)), None);
    assert_eq!(Pass::try_fold_string_casing(&args(vec![arg(null())]), "trim", &text(" a")), None);
}

#[test]
fn casing_of_ascii() {
    let once = |name: &str, s: &str| match Pass::try_fold_string_casing(&args(vec![]), name, &text(s))
    {
        Some(Expression::StringLiteral(lit)) => lit.value,
        _ => panic!("not folded"),
    };
    let s = "aZ[`{@ 09";
    let low = once("toLowerCase", s);
    let up = once("toUpperCase", s);
    assert_eq!(low, "az[`{@ 09");
    assert_eq!(up, "AZ[`{@ 09");
    assert_eq!(once("toLowerCase", &low), low);
    assert_eq!(once("toUpperCase", &up), up);
    assert_eq!(once("toLowerCase", &up), low);
    assert_eq!(once("toUpperCase", &low), up);
    assert_eq!(once("trim", &once("trim", "  a b ")), once("trim", "  a b "));
}

fn index_of(name: &str, s: &str, arguments: Vec<Argument>) -> Option<Expression> {
    Pass::try_fold_string_index_of(&args(arguments), name, &text(s))
}

#[test]
fn positions_of_strings() {
    assert_eq!(index_of("indexOf", "abcabc", vec![]), number_at(-1.0));
    assert_eq!(index_of("lastIndexOf", "abcabc", vec![]), number_at(-1.0));
    let c = || arg(text("c"));
    assert_eq!(index_of("indexOf", "abcabc", vec![c()]), number_at(2.0));
    assert_eq!(index_of("lastIndexOf", "abcabc", vec![c()]), number_at(5.0));
    let from = |v: f64| vec![c(), arg(number(v))];
    assert_eq!(index_of("indexOf", "abcabc", from(2.0)), number_at(2.0));
    assert_eq!(index_of("indexOf", "abcabc", from(2.9)), number_at(2.0));
    assert_eq!(index_of("indexOf", "abcabc", from(3.0)), number_at(5.0));
    assert_eq!(index_of("indexOf", "abcabc", from(-3.0)), number_at(2.0));
    assert_eq!(index_of("indexOf", "abcabc", from(6.0)), number_at(-1.0));
    assert_eq!(index_of("indexOf", "abcabc", from(600.0)), number_at(-1.0));
    assert_eq!(index_of("lastIndexOf", "abcabc", from(5.0)), number_at(5.0));
    assert_eq!(index_of("lastIndexOf", "abcabc", from(4.0)), number_at(2.0));
    assert_eq!(index_of("lastIndexOf", "abcabc", from(1.0)), number_at(-1.0));
    assert_eq!(index_of("lastIndexOf", "cab", from(-9.0)), number_at(0.0));
    assert_eq!(index_of("lastIndexOf", "abcabc", from(600.0)), number_at(5.0));
}

#[test]
fn positions_of_the_empty_string() {
    let empty = |v: f64| vec![arg(text("")), arg(number(v))];
    assert_eq!(index_of("indexOf", "abc", vec![arg(text(""))]), number_at(0.0));
    assert_eq!(index_of("indexOf", "abc", empty(2.0)), number_at(2.0));
    assert_eq!(index_of("indexOf", "abc", empty(10.0)), number_at(10.0));
    assert_eq!(index_of("lastIndexOf", "abc", vec![arg(text(""))]), number_at(3.0));
    assert_eq!(index_of("lastIndexOf", "abc", empty(1.0)), number_at(1.0));
}

#[test]
fn positions_count_bytes_beyond_ascii() {
    assert_eq!(index_of("indexOf", "éb", vec![arg(text("b"))]), number_at(2.0));
    let from = vec![arg(text("b")), arg(number(1.0))];
    assert_eq!(index_of("indexOf", "éb", from), number_at(1.0));
    assert_eq!(index_of("indexOf", "bé", vec![arg(text("b"))]), number_at(0.0));
    assert_eq!(index_of("lastIndexOf", "éb", vec![arg(text("b"))]), number_at(2.0));
    let from = vec![arg(text("é")), arg(number(1.0))];
    assert_eq!(index_of("lastIndexOf", "aaé", from), number_at(2.0));
}

#[test]
fn positions_that_are_not_known() {
    assert_eq!(index_of("indexOf", "abc", vec![spread()]), None);
    assert_eq!(index_of("indexOf", "abc", vec![arg(number(1.0))]), None);
    assert_eq!(index_of("indexOf", "abc", vec![arg(text("a")), spread()]), None);
    assert_eq!(index_of("indexOf", "abc", vec![arg(text("a")), arg(negative(1.0))]), None);
    let three = vec![arg(text("a")), arg(number(1.0)), arg(number(1.0))];
    assert_eq!(index_of("indexOf", "abc", three), None);
    let one = args(vec![arg(text("a"))]);
    assert_eq!(Pass::try_fold_string_index_of(&one, "indexOf", &other(1)), None);
}

fn substring(s: &str, arguments: usize, values: Vec<Option<f64>>) -> Option<Expression> {
    let arguments = (0..arguments).map(|i| arg(other(i as u32))).collect();
    Pass::try_fold_string_substring_or_slice(&args(arguments), &text(s), &with_numbers(values))
}

#[test]
fn substrings() {
    assert_eq!(substring("abcde", 0, vec![]), text_at("abcde"));
    assert_eq!(substring("abcde", 1, vec![Some(5.0)]), text_at(""));
    assert_eq!(substring("abcde", 2, vec![Some(1.9), Some(3.9)]), text_at("bc"));
    assert_eq!(substring("abcde", 2, vec![Some(2.0), Some(2.0)]), text_at(""));
    assert_eq!(substring("abcde", 2, vec![Some(f64::NAN), Some(2.0)]), text_at("ab"));
    assert_eq!(substring("abcde", 2, vec![Some(-0.0), Some(2.0)]), text_at("ab"));
    assert_eq!(substring("éb", 2, vec![Some(1.0), Some(2.0)]), text_at("b"));
    assert_eq!(substring("éb", 2, vec![Some(3.0), Some(3.0)]), text_at(""));
}

#[test]
fn substrings_with_an_unknown_bound_stay() {
    assert_eq!(substring("abcde", 1, vec![None]), None);
    assert_eq!(substring("abcde", 2, vec![Some(2.0), None]), None);
    assert_eq!(substring("abcde", 2, vec![None, Some(2.0)]), None);
    assert_eq!(substring("", 2, vec![None, None]), None);
    assert_eq!(substring("abcde", 2, vec![Some(2.0)]), None);
    let ctx = with_numbers(vec![Some(1.0), Some(2.0)]);
    let object = text("abc");
    let ce = args(vec![spread()]);
    assert_eq!(Pass::try_fold_string_substring_or_slice(&ce, &object, &ctx), None);
    let ce = args(vec![arg(number(1.0)), spread()]);
    assert_eq!(Pass::try_fold_string_substring_or_slice(&ce, &object, &ctx), None);
}

#[test]
fn substrings_that_stay() {
    assert_eq!(substring("abcde", 1, vec![Some(6.0)]), None);
    assert_eq!(substring("abcde", 1, vec![Some(-1.0)]), None);
    assert_eq!(substring("abcde", 2, vec![Some(0.0), Some(5.5)]), None);
    assert_eq!(substring("abcde", 2, vec![Some(0.0), Some(-0.5)]), None);
    assert_eq!(substring("abcde", 2, vec![Some(3.0), Some(2.0)]), None);
    assert_eq!(substring("abcde", 1, vec![Some(f64::INFINITY)]), None);
    assert_eq!(substring("abcde", 1, vec![Some(f64::NEG_INFINITY)]), None);
    assert_eq!(substring("abcde", 3, vec![Some(1.0), Some(2.0), Some(3.0)]), None);
    assert_eq!(
        Pass::try_fold_string_substring_or_slice(&args(vec![]), &other(1), &context()),
        None
    );
}

#[test]
fn found_text_is_the_substring_there() {
    let s = "abcabcabd";
    let Some(Expression::NumericLiteral(found)) =
        index_of("indexOf", s, vec![arg(text("abd")), arg(number(1.0))])
    else {
        panic!("not folded")
    };
    let start = f64::from_bits(found.value.bits);
    assert_eq!(substring(s, 2, vec![Some(start), Some(start + 3.0)]), text_at("abd"));
}

fn char_at(s: &str, arguments: Vec<Argument>) -> Option<Expression> {
    Pass::try_fold_string_char_at(&args(arguments), &text(s))
}

#[test]
fn characters() {
    assert_eq!(char_at("abc", vec![]), text_at("a"));
    assert_eq!(char_at("", vec![]), text_at(""));
    assert_eq!(char_at("abc", vec![arg(number(2.0))]), text_at("c"));
    assert_eq!(char_at("abc", vec![arg(number(3.0))]), text_at(""));
    assert_eq!(char_at("abc", vec![arg(number(1.5))]), text_at(""));
    assert_eq!(char_at("abc", vec![arg(number(f64::NAN))]), text_at(""));
    assert_eq!(char_at("abc", vec![arg(negative(0.0))]), text_at("a"));
    assert_eq!(char_at("abc", vec![arg(negative(2.0))]), text_at(""));
    assert_eq!(char_at("abc", vec![arg(number(4294967297.0))]), text_at("b"));
    assert_eq!(char_at("éb", vec![arg(number(1.0))]), text_at("b"));
    assert_eq!(char_at("\u{1d11e}b", vec![arg(number(0.0))]), text_at(""));
    assert_eq!(char_at("\u{1d11e}b", vec![arg(number(1.0))]), text_at(""));
    assert_eq!(char_at("\u{1d11e}b", vec![arg(number(2.0))]), text_at("b"));
}

#[test]
fn characters_that_stay() {
    assert_eq!(char_at("abc", vec![arg(number(0.0)), arg(number(0.0))]), None);
    assert_eq!(char_at("abc", vec![arg(unary(UnaryOperator::UnaryPlus, number(1.0)))]), None);
    assert_eq!(char_at("abc", vec![arg(unary(UnaryOperator::UnaryNegation, ident("x")))]), None);
    assert_eq!(char_at("abc", vec![spread()]), None);
    assert_eq!(Pass::try_fold_string_char_at(&args(vec![]), &other(1)), None);
}

fn char_code_at(s: &str, value: Option<f64>) -> Option<Expression> {
    let ce = args(vec![arg(other(1)), spread()]);
    Pass::try_fold_string_char_code_at(&ce, &text(s), &with_numbers(vec![value]))
}

#[test]
fn character_codes() {
    assert_eq!(char_code_at("abc", Some(1.0)), number_at(98.0));
    assert_eq!(char_code_at("abc", Some(-0.0)), number_at(97.0));
    assert_eq!(char_code_at("a\u{ffff}", Some(1.0)), number_at(65535.0));
    assert_eq!(char_code_at("abc", Some(-1.0)), number_at(f64::NAN));
    assert_eq!(char_code_at("abc", Some(-0.5)), number_at(f64::NAN));
    assert_eq!(char_code_at("abc", Some(65536.0)), number_at(f64::NAN));
    assert_eq!(
        Pass::try_fold_string_char_code_at(&args(vec![]), &text("b"), &context()),
        number_at(98.0)
    );
}

#[test]
fn character_codes_that_stay() {
    assert_eq!(char_code_at("abc", Some(3.0)), None);
    assert_eq!(char_code_at("abc", Some(65535.5)), None);
    assert_eq!(char_code_at("abc", Some(1.5)), None);
    assert_eq!(char_code_at("abc", Some(f64::NAN)), None);
    assert_eq!(char_code_at("abc", Some(f64::INFINITY)), None);
    assert_eq!(char_code_at("abc", Some(f64::NEG_INFINITY)), None);
    assert_eq!(char_code_at("\u{1d11e}", Some(0.0)), None);
    assert_eq!(char_code_at("abc", None), None);
    let ctx = with_numbers(vec![Some(1.0)]);
    assert_eq!(Pass::try_fold_string_char_code_at(&args(vec![spread()]), &text("abc"), &ctx), None);
    assert_eq!(Pass::try_fold_string_char_code_at(&args(vec![]), &other(1), &ctx), None);
}

fn from_char_code(values: Vec<Option<f64>>) -> Option<Expression> {
    let arguments = values.iter().map(|_| arg(other(1))).collect();
    let mut ctx = with_numbers(values);
    ctx.object_is_global_reference = true;
    Pass::try_fold_string_from_char_code(&args(arguments), &ident("String"), &ctx)
}

#[test]
fn characters_of_codes() {
    assert_eq!(from_char_code(vec![]), text_at(""));
    assert_eq!(from_char_code(vec![Some(97.0), Some(98.9)]), text_at("ab"));
    assert_eq!(from_char_code(vec![Some(-1.0)]), text_at("\u{ffff}"));
    assert_eq!(from_char_code(vec![Some(65536.0 + 97.0)]), text_at("a"));
    assert_eq!(from_char_code(vec![Some(-65536.0 + 97.0)]), text_at("a"));
    assert_eq!(from_char_code(vec![Some(97.0), Some(0xd800 as f64)]), None);
    assert_eq!(from_char_code(vec![Some(0xdfff as f64)]), None);
    assert_eq!(from_char_code(vec![Some(0xe000 as f64)]), text_at("\u{e000}"));
    assert_eq!(from_char_code(vec![None, Some(97.0)]), None);
}

#[test]
fn characters_of_codes_that_stay() {
    let mut ctx = with_numbers(vec![Some(97.0)]);
    let one = args(vec![arg(number(97.0))]);
    let string = ident("String");
    assert_eq!(Pass::try_fold_string_from_char_code(&one, &string, &ctx), None);
    ctx.object_is_global_reference = true;
    assert_eq!(Pass::try_fold_string_from_char_code(&one, &string, &ctx), text_at("a"));
    assert_eq!(Pass::try_fold_string_from_char_code(&one, &text("String"), &ctx), None);
    assert_eq!(Pass::try_fold_string_from_char_code(&args(vec![spread()]), &string, &ctx), None);
}

#[test]
fn characters_and_their_codes_agree() {
    let s = "aé\u{4e2d}\u{ffff}z";
    for i in 0..5 {
        let Some(Expression::NumericLiteral(code)) = char_code_at(s, Some(i as f64)) else {
            panic!("not folded")
        };
        let code = f64::from_bits(code.value.bits);
        assert_eq!(from_char_code(vec![Some(code)]), char_at(s, vec![arg(number(i as f64))]));
    }
}

fn replace(name: &str, s: &str, search: Option<&str>, to: Option<&str>) -> Option<Expression> {
    let ce = args(vec![arg(other(1)), arg(other(2))]);
    Pass::try_fold_string_replace(&ce, name, &text(s), &with_strings(vec![search, to]))
}

#[test]
fn replacements() {
    let (a, b) = (Some("a"), Some("b"));
    assert_eq!(replace("replace", "caca", a, b), text_at("cbca"));
    assert_eq!(replace("replaceAll", "caca", a, b), text_at("cbcb"));
    assert_eq!(replace("replaceAll", "aaaaa", Some("aa"), b), text_at("bba"));
    assert_eq!(replace("replace", "aé", Some("é"), Some("")), text_at("a"));
    assert_eq!(replace("replaceAll", "éa", Some(""), Some("-")), text_at("-é-a-"));
    assert_eq!(replace("replaceAll", "", Some(""), Some("-")), text_at("-"));
    assert_eq!(replace("replace", "", Some(""), Some("-")), text_at("-"));
}

#[test]
fn replacements_without_effect() {
    for name in ["replace", "replaceAll"] {
        assert_eq!(replace(name, "caca", Some("x"), Some("b")), text_at("caca"));
        assert_eq!(replace(name, "caca", Some("caca!"), Some("b")), text_at("caca"));
        assert_eq!(replace(name, "caca", Some("ca"), Some("ca")), text_at("caca"));
        assert_eq!(replace(name, "caca", Some(""), Some("")), text_at("caca"));
    }
}

#[test]
fn replacements_that_stay() {
    let (a, b) = (Some("a"), Some("b"));
    assert_eq!(replace("replace", "caca", a, None), None);
    assert_eq!(replace("replace", "caca", None, b), None);
    assert_eq!(replace("replace", "caca", a, Some("x$")), None);
    assert_eq!(replace("replaceAll", "caca", Some("x"), Some("$x")), None);
    assert_eq!(replace("replace", "c$ca", Some("$"), b), text_at("cbca"));
    let ctx = with_strings(vec![a, b, b]);
    let object = text("caca");
    let one = args(vec![arg(text("a"))]);
    assert_eq!(Pass::try_fold_string_replace(&one, "replace", &object, &ctx), None);
    let three = args(vec![arg(other(1)), arg(other(1)), arg(other(1))]);
    assert_eq!(Pass::try_fold_string_replace(&three, "replace", &object, &ctx), None);
    let spread_first = args(vec![spread(), arg(other(1))]);
    assert_eq!(Pass::try_fold_string_replace(&spread_first, "replace", &object, &ctx), None);
    let two = args(vec![arg(other(1)), arg(other(1))]);
    assert_eq!(Pass::try_fold_string_replace(&two, "replace", &other(3), &ctx), None);
}

fn to_string(object: Expression, arguments: Vec<Argument>) -> Option<Expression> {
    let mut ctx = context();
    ctx.number_text = "as told".to_string();
    Pass::try_fold_to_string(&args(arguments), &object, &ctx)
}

#[test]
fn numbers_to_text() {
    assert_eq!(to_string(number(0.0), vec![]), text_at("0"));
    assert_eq!(to_string(number(-0.0), vec![]), text_at("0"));
    assert_eq!(to_string(number(-17.0), vec![]), text_at("-17"));
    assert_eq!(to_string(number(2147483647.0), vec![]), text_at("2147483647"));
    assert_eq!(to_string(number(-2147483648.0), vec![]), text_at("-2147483648"));
    assert_eq!(to_string(number(2147483648.0), vec![]), text_at("2147483648"));
    assert_eq!(to_string(number(4294967295.0), vec![]), text_at("4294967295"));
    assert_eq!(to_string(number(-2147483649.0), vec![]), text_at("-2147483649"));
    assert_eq!(to_string(number(1e15), vec![]), text_at("1000000000000000"));
    assert_eq!(to_string(number(9007199254740991.0), vec![]), text_at("9007199254740991"));
    assert_eq!(to_string(number(-9007199254740991.0), vec![]), text_at("-9007199254740991"));
    assert_eq!(to_string(number(9007199254740992.0), vec![]), text_at("as told"));
    assert_eq!(to_string(number(0.5), vec![]), text_at("as told"));
    assert_eq!(to_string(number(f64::NAN), vec![]), text_at("as told"));
    assert_eq!(to_string(number(10.0), vec![arg(number(10.0))]), text_at("10"));
    assert_eq!(to_string(number(0.5), vec![arg(number(10.0))]), text_at("as told"));
}

#[test]
fn numbers_to_text_in_a_radix() {
    let radix = |r: f64| vec![arg(number(r))];
    assert_eq!(to_string(number(255.0), radix(16.0)), text_at("ff"));
    assert_eq!(to_string(number(255.0), radix(2.0)), text_at("11111111"));
    assert_eq!(to_string(number(4294967295.0), radix(36.0)), text_at("1z141z3"));
    assert_eq!(to_string(number(-0.0), radix(16.0)), text_at("0"));
    assert_eq!(to_string(number(4294967296.0), radix(16.0)), None);
    assert_eq!(to_string(number(-1.0), radix(16.0)), None);
    assert_eq!(to_string(number(0.5), radix(16.0)), None);
    assert_eq!(to_string(number(-0.5), radix(16.0)), None);
    assert_eq!(to_string(number(f64::NAN), radix(16.0)), None);
    assert_eq!(to_string(number(255.0), radix(37.0)), None);
    assert_eq!(to_string(number(255.0), radix(1.0)), None);
    assert_eq!(to_string(number(255.0), radix(2.5)), None);
    assert_eq!(to_string(number(255.0), vec![arg(text("16"))]), None);
    assert_eq!(to_string(number(255.0), vec![spread()]), None);
    assert_eq!(to_string(number(255.0), vec![arg(number(16.0)), arg(null())]), None);
}

#[test]
fn other_literals_to_text() {
    assert_eq!(to_string(boolean(true), vec![]), text_at("true"));
    assert_eq!(to_string(boolean(false), vec![]), text_at("false"));
    assert_eq!(to_string(text("x"), vec![]), text_at("x"));
    assert_eq!(to_string(bigint("120n", BigintBase::Decimal), vec![]), text_at("120"));
    assert_eq!(to_string(bigint("0x1fn", BigintBase::Hex), vec![]), None);
    assert_eq!(to_string(regex(), vec![]), None);
    assert_eq!(to_string(null(), vec![]), None);
    assert_eq!(to_string(ident("x"), vec![]), None);
    for e in [boolean(true), text("x"), bigint("1n", BigintBase::Decimal)] {
        assert_eq!(to_string(e, vec![arg(number(10.0))]), None);
    }
}

#[test]
fn concat_merges_what_is_known() {
    let elision = || ArrayExpressionElement::Elision(Elision { span: ELSEWHERE });
    let element = ArrayExpressionElement::Expression;
    let mut ce = call_of(
        member(array(vec![elision()]), "concat"),
        vec![arg(text("a")), arg(array(vec![elision(), element(other(4))])), arg(other(5)), arg(null())],
    );
    let expected = call(
        array(vec![elision(), element(text("a")), elision(), element(other(4))]),
        "concat",
        vec![arg(other(5)), arg(null())],
    );
    assert_eq!(Pass::try_fold_concat(&mut ce, &context()), Some(expected));
    assert_eq!(ce, call_of(Expression::placeholder(), vec![]));

    let mut ce = call_of(member(numbers(&[1.0]), "concat"), vec![]);
    assert_eq!(Pass::try_fold_concat(&mut ce, &context()), Some(numbers(&[1.0])));
    assert_eq!(ce, call_of(member(Expression::placeholder(), "concat"), vec![]));
    let mut ce = call_of(member(numbers(&[1.0]), "concat"), vec![arg(numbers(&[2.0, 3.0]))]);
    assert_eq!(Pass::try_fold_concat(&mut ce, &inside("length")), Some(numbers(&[1.0, 2.0, 3.0])));
    assert_eq!(ce, call_of(member(Expression::placeholder(), "concat"), vec![]));
}

#[test]
fn concat_that_stays() {
    let same = |ce: fn() -> CallExpression, ctx: &TraverseCtx| {
        let mut changed = ce();
        assert_eq!(Pass::try_fold_concat(&mut changed, ctx), None);
        assert_eq!(changed, ce());
    };
    same(|| call_of(member(numbers(&[]), "concat"), vec![arg(other(1)), arg(null())]), &context());
    same(|| call_of(member(numbers(&[]), "concat"), vec![spread()]), &context());
    same(|| call_of(member(text(""), "concat"), vec![arg(null())]), &context());
    same(|| call_of(member(ident("x"), "concat"), vec![arg(null())]), &context());
    same(|| call_of(member(numbers(&[]), "concat"), vec![arg(null())]), &inside("concat"));
    same(|| call_of(computed(numbers(&[]), text("concat"), false), vec![]), &inside("concat"));
}

#[test]
fn mergeable_arguments() {
    let list = vec![arg(null()), arg(numbers(&[])), arg(regex()), arg(ident("x")), arg(null())];
    assert_eq!(known_methods::concat::count_mergeable(&list), 3);
    assert_eq!(known_methods::concat::count_mergeable(&vec![spread(), arg(null())]), 0);
    assert_eq!(known_methods::concat::count_mergeable(&vec![]), 0);
}

fn chain(root: Expression) -> Expression {
    let inner = call(root, "concat", vec![arg(other(1)), spread()]);
    call(call(inner, "concat", vec![]), "concat", vec![arg(null()), arg(other(2))])
}

#[test]
fn chains_are_seen() {
    assert!(known_methods::concat::is_long_chain(&chain(text(""))));
    assert!(known_methods::concat::is_long_chain(&chain(numbers(&[]))));
    assert!(!known_methods::concat::is_long_chain(&chain(ident("x"))));
    assert!(!known_methods::concat::is_long_chain(&call(text(""), "concat", vec![])));
    assert!(!known_methods::concat::is_long_chain(&call(call(text(""), "concat", vec![]), "at", vec![])));
    assert!(!known_methods::concat::is_long_chain(&call(call(text(""), "at", vec![]), "concat", vec![])));
    assert!(!known_methods::concat::is_long_chain(&text("")));
    assert!(known_methods::concat::is_concat_root(&text("")) && !known_methods::concat::is_concat_root(&other(1)));
    assert!(known_methods::concat::is_concat_callee(&member(other(1), "concat")));
    assert!(!known_methods::concat::is_concat_callee(&member(other(1), "at")));
}

#[test]
fn chains_become_one_call() {
    let arguments = || vec![arg(other(1)), spread(), arg(null()), arg(other(2))];
    let flat = call(text("r"), "concat", arguments());
    assert_eq!(known_methods::concat::flatten_chain(chain(text("r"))), flat);
    assert_eq!(exit(chain(text("r")), &context()), (flat, true));
    let flat = call(numbers(&[1.0]), "concat", arguments());
    assert_eq!(exit(chain(numbers(&[1.0])), &context()), (flat, true));
    assert_eq!(exit(chain(text("r")), &inside("length")), (chain(text("r")), false));
    assert_eq!(exit(chain(text("r")), &inside("concat")), (chain(text("r")), false));
    assert_eq!(exit(chain(ident("x")), &context()), (chain(ident("x")), false));
}

#[test]
fn chains_become_arrays() {
    let inner = call(numbers(&[1.0]), "concat", vec![arg(number(2.0))]);
    let outer = call(inner, "concat", vec![arg(numbers(&[3.0, 4.0]))]);
    assert_eq!(exit(outer, &context()), (numbers(&[1.0, 2.0, 3.0, 4.0]), true));
}

#[test]
fn one_visit_is_enough() {
    let inner = || call(numbers(&[1.0]), "concat", vec![arg(number(2.0))]);
    let cases = vec![
        call(inner(), "concat", vec![arg(other(1)), arg(number(3.0))]),
        call(call(text("a"), "concat", vec![]), "concat", vec![]),
        call(text("a"), "toUpperCase", vec![]),
        call(text("a"), "charCodeAt", vec![]),
        inner(),
    ];
    for e in cases {
        let (once, changed) = exit(e, &context());
        assert!(changed);
        let mut twice = once;
        let mut pass = Pass::new();
        pass.exit_expression(&mut twice, &context());
        assert!(!pass.changed);
    }
}

#[test]
fn the_change_is_remembered() {
    let mut pass = Pass::new();
    let mut e = call(text("a"), "toUpperCase", vec![]);
    pass.exit_expression(&mut e, &context());
    assert!(pass.changed);
    pass.exit_expression(&mut e, &context());
    assert!(pass.changed);
    assert_eq!(Some(e), text_at("A"));
}

#[test]
fn methods_by_name() {
    let mut ctx = with_numbers(vec![Some(1.0), Some(2.0)]);
    ctx.string_values = vec![Some("b".to_string()), Some("x".to_string())];
    ctx.object_is_global_reference = true;
    let two = || vec![arg(number(1.0)), arg(number(2.0))];
    for (name, arguments, expected) in [
        ("toLowerCase", vec![], text_at("abcab ")),
        ("toUpperCase", vec![], text_at("ABCAB ")),
        ("trim", vec![], text_at("aBcab")),
        ("substring", two(), text_at("B")),
        ("slice", two(), text_at("B")),
        ("indexOf", vec![arg(text("a")), arg(number(1.0))], number_at(3.0)),
        ("lastIndexOf", vec![arg(text("a")), arg(number(1.0))], number_at(0.0)),
        ("charAt", vec![arg(number(1.0))], text_at("B")),
        ("charCodeAt", vec![arg(number(1.0))], number_at(66.0)),
        ("replace", two(), text_at("aBcax ")),
        ("replaceAll", two(), text_at("aBcax ")),
        ("toString", vec![], text_at("aBcab ")),
    ] {
        let (result, changed) = exit(call(text("aBcab "), name, arguments), &ctx);
        assert_eq!((Some(result), changed), (expected, true), "{name}");
    }
    let e = call(ident("String"), "fromCharCode", vec![arg(other(1)), arg(other(2))]);
    assert_eq!(exit(e, &ctx), (text_at("\u{1}\u{2}").unwrap(), true));
    for name in ["at", "split", "TOSTRING", "", "concat"] {
        let e = || call(text("aBcab "), name, vec![]);
        assert_eq!(exit(e(), &ctx), (e(), false), "{name}");
    }
}

#[test]
fn members_in_brackets() {
    let of = |callee: Expression| Expression::CallExpression(Box::new(call_of(callee, vec![])));
    let e = of(computed(text("a"), text("toUpperCase"), false));
    assert_eq!(exit(e, &context()), (text_at("A").unwrap(), true));
    let e = || of(computed(text("a"), text("toUpperCase"), true));
    assert_eq!(exit(e(), &context()), (e(), false));
    let e = || of(computed(text("a"), ident("toUpperCase"), false));
    assert_eq!(exit(e(), &context()), (e(), false));
    let e = || of(ident("toUpperCase"));
    assert_eq!(exit(e(), &context()), (e(), false));
}

#[test]
fn literal_arguments() {
    let ctx = with_numbers(vec![Some(1.0), Some(3.0)]);
    let e = call(text("abcde"), "slice", vec![arg(number(1.0)), arg(number(3.0))]);
    assert_eq!(exit(e, &ctx), (text_at("bc").unwrap(), true));
    let e = call(text("abcde"), "substring", vec![arg(number(1.0))]);
    assert_eq!(exit(e, &ctx), (text_at("bcde").unwrap(), true));
    let e = call(text("abc"), "charCodeAt", vec![arg(number(1.0))]);
    assert_eq!(exit(e, &ctx), (number_at(98.0).unwrap(), true));
    let ctx = with_strings(vec![Some("b"), Some("x")]);
    let e = call(text("abcb"), "replaceAll", vec![arg(text("b")), arg(text("x"))]);
    assert_eq!(exit(e, &ctx), (text_at("axcx").unwrap(), true));
    let e = call(text("abcb"), "replace", vec![arg(text("b")), arg(text("x"))]);
    assert_eq!(exit(e, &ctx), (text_at("axcb").unwrap(), true));
    let mut ctx = with_numbers(vec![Some(120.0), Some(65657.0)]);
    ctx.object_is_global_reference = true;
    let e = call(ident("String"), "fromCharCode", vec![arg(number(120.0)), arg(number(65657.0))]);
    assert_eq!(exit(e, &ctx), (text_at("xy").unwrap(), true));
}

#[test]
fn concat_in_brackets_is_not_supported() {
    let of = |callee: Expression| Expression::CallExpression(Box::new(call_of(callee, vec![])));
    let concat = of(computed(numbers(&[]), text("concat"), false));
    assert!(!Pass::supports(&concat, &context()));
    assert!(!Pass::supports(&concat, &inside("length")));
    assert!(Pass::supports(&concat, &inside("concat")));
    assert!(Pass::supports(&of(computed(numbers(&[]), text("concat"), true)), &context()));
    assert!(Pass::supports(&of(computed(numbers(&[]), text("at"), false)), &context()));
    assert!(Pass::supports(&call(numbers(&[]), "concat", vec![]), &context()));
    assert!(Pass::supports(&text("concat"), &context()));
}

#[test]
fn unknown_objects_stay() {
    let mut ctx = with_numbers(vec![Some(0.0)]);
    ctx.object_is_global_reference = true;
    for name in [
        "toLowerCase", "toUpperCase", "trim", "substring", "slice", "indexOf", "lastIndexOf",
        "charAt", "charCodeAt", "concat", "replace", "replaceAll", "fromCharCode", "toString",
    ] {
        for object in [|| other(1), regex, null, || negative(1.0), || member(text("a"), "b")] {
            let e = || call(object(), name, vec![]);
            assert_eq!(exit(e(), &ctx), (e(), false), "{name}");
        }
    }
    for e in [|| text("a"), || numbers(&[1.0]), || other(1), || member(text("a"), "trim")] {
        assert_eq!(exit(e(), &ctx), (e(), false));
    }
}
