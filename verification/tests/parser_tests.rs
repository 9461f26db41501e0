use doommy::config_parser::ConfigParser;
use doommy::resolver::ConfigError;
use doommy::syntax::{parse_document, Chain, Node, Span, SyntaxError};
use doommy::value::Value;

fn name_of(bytes: &[u8]) -> String {
    String::from_utf8(bytes.to_vec()).unwrap()
}

fn render(value: &Value, indent: usize, lines: &mut Vec<String>) {
    let pad = " ".repeat(indent);
    match value {
        Value::Number(n) => lines.push(format!("{}{}", pad, n)),
        Value::List(items) => {
            for item in items {
                match item {
                    Value::Number(n) => lines.push(format!("{}- {}", pad, n)),
                    other => {
                        lines.push(format!("{}-", pad));
                        render(other, indent + 2, lines);
                    }
                }
            }
        }
        Value::Dictionary(entries) => {
            for (key, item) in entries {
                match item {
                    Value::Number(n) => lines.push(format!("{}{}: {}", pad, name_of(key), n)),
                    other => {
                        lines.push(format!("{}{}:", pad, name_of(key)));
                        render(other, indent + 2, lines);
                    }
                }
            }
        }
    }
}

fn text_at(input: &str, span: Span) -> String {
    name_of(&input.as_bytes()[span.start..span.end])
}

fn describe(error: ConfigError, input: &str) -> String {
    match error {
        ConfigError::Syntax(SyntaxError::UnclosedList(_)) => {
            "Ошибка: не закрыта скобка в списке (list)".to_string()
        }
        ConfigError::Syntax(SyntaxError::MalformedDictionary(_)) => {
            "Ошибка: неправильный формат словаря (имя: значение)".to_string()
        }
        ConfigError::Syntax(SyntaxError::MalformedExpression(_)) => {
            "Ошибка: некорректный формат выражения в константе".to_string()
        }
        ConfigError::Syntax(SyntaxError::UnexpectedInput(at)) => {
            format!("Ошибка: неожиданный символ в позиции {}", at)
        }
        ConfigError::Syntax(SyntaxError::TooDeep(at)) => {
            format!("Ошибка: слишком глубокая вложенность в позиции {}", at)
        }
        ConfigError::UnsupportedOperation(span) => format!(
            "Ошибка: операция '{}' не поддерживается для константных выражений",
            text_at(input, span)
        ),
        ConfigError::UndefinedConstant(span) => {
            format!("Ошибка: неизвестная константа '{}'", text_at(input, span))
        }
        ConfigError::InvalidExponent(_) => "Ошибка: отрицательный показатель степени".to_string(),
        ConfigError::NumericOverflow(_) => "Ошибка: переполнение".to_string(),
    }
}

/// Renders what each statement of `input` produces, in source order, as
/// indented block text; or the message of the error that stops the document.
fn parse_config(input: &str) -> String {
    if let Err(error) = ConfigParser::parse(input) {
        return describe(error, input);
    }
    let src = input.as_bytes();
    let mut chain = parse_document(src).unwrap();
    let mut parser = ConfigParser::new();
    let mut lines = Vec::new();
    while let Chain::Link(_, node, rest) = chain {
        match &*node {
            Node::Define(name, value) => parser.parse_def_statement(src, *name, value).unwrap(),
            other => render(&parser.parse_value(src, other).unwrap(), 0, &mut lines),
        }
        chain = *rest;
    }
    let mut text = String::from("\n");
    for line in lines {
        text.push_str("        ");
        text.push_str(&line);
        text.push('\n');
    }
    text.push_str("        ");
    text
}

// Простой словарь с числами
#[test]
fn test_simple_dict_with_numbers() {
    let input = r#"
        $[
            NAME1: 10,
            NAME2: 20
        ]
        "#;

    let expected_output = r#"
        NAME1: 10
        NAME2: 20
        "#;

    let result = parse_config(input);
    assert_eq!(result, expected_output);
}

// Массив с числами и константами
#[test]
fn test_list_with_numbers_and_constants() {
    let input = r#"
        (list 10 20 30)
        (def CONSTANT_1 40);
        (def CONSTANT_2 5);
        (list CONSTANT_1 CONSTANT_2)
        "#;

    let expected_output = r#"
        - 10
        - 20
        - 30
        - 40
        - 5
        "#;

    let result = parse_config(input);
    assert_eq!(result, expected_output);
}

// Сложное вычисление с константами
#[test]
fn test_complex_expression_with_constants() {
    let input = r#"
        (def BASE 10);
        (def OFFSET 5);
        ^{BASE + OFFSET}
        "#;

    let expected_output = r#"
        15
        "#;

    let result = parse_config(input);
    assert_eq!(result, expected_output);
}

// Вложенные массивы и словари
#[test]
fn test_nested_lists_and_dicts() {
    let input = r#"
        $[
            NAME1: (list 1 2 3),
            NAME2: $[
                NAME3: 100,
                NAME4: (list 4 5)
            ]
        ]
        "#;

    let expected_output = r#"
        NAME1:
          - 1
          - 2
          - 3
        NAME2:
          NAME3: 100
          NAME4:
            - 4
            - 5
        "#;

    let result = parse_config(input);
    assert_eq!(result, expected_output);
}

// Ошибка в синтаксисе — неправильный формат массива
#[test]
fn test_invalid_list_syntax() {
    let input = r#"
        (list 10 20 30
        "#;

    let expected_error = "Ошибка: не закрыта скобка в списке (list)";

    let result = parse_config(input);
    assert_eq!(result, expected_error);
}

// Ошибка в синтаксисе — неправильный формат словаря
#[test]
fn test_invalid_dict_syntax() {
    let input = r#"
        $[
            NAME1: 10,
            NAME2 20
        ]
        "#;

    let expected_error = "Ошибка: неправильный формат словаря (имя: значение)";

    let result = parse_config(input);
    assert_eq!(result, expected_error);
}

// Ошибка вычисления константного выражения — недопустимая операция
#[test]
fn test_invalid_constant_expression() {
    let input = r#"
        (def BASE 10);
        (def OFFSET 5);
        ^{BASE * OFFSET}
        "#;

    let expected_error = "Ошибка: операция '*' не поддерживается для константных выражений";

    let result = parse_config(input);
    assert_eq!(result, expected_error);
}

// Пример вычисления с функцией pow()
#[test]
fn test_pow_function_in_expression() {
    let input = r#"
        (def BASE 2);
        (def EXPONENT 3);
        ^{pow(BASE, EXPONENT)}
        "#;

    let expected_output = r#"
        8
        "#;

    let result = parse_config(input);
    assert_eq!(result, expected_output);
}

// Использование констант в массиве и словаре
#[test]
fn test_constants_in_lists_and_dicts() {
    let input = r#"
        (def BASE 10);
        (def OFFSET 5);
        $[
            NAME1: BASE,
            NAME2: OFFSET,
            NAME3: ^{BASE + OFFSET}
        ]
        "#;

    let expected_output = r#"
        NAME1: 10
        NAME2: 5
        NAME3: 15
        "#;

    let result = parse_config(input);
    assert_eq!(result, expected_output);
}

// Сложная структура с несколькими уровнями вложенности
#[test]
fn test_complex_nested_structure() {
    let input = r#"
        (def A 10);
        (def B 20);
        $[
            NAME1: (list A B),
            NAME2: $[
                NAME3: ^{A + B},
                NAME4: (list ^{A + 1} ^{B - 1})
            ]
        ]
        "#;

    let expected_output = r#"
        NAME1:
          - 10
          - 20
        NAME2:
          NAME3: 30
          NAME4:
            - 11
            - 19
        "#;

    let result = parse_config(input);
    assert_eq!(result, expected_output);
}

// Пример с ошибкой в вычислении константного выражения
#[test]
fn test_invalid_constant_expression_format() {
    let input = r#"
        (def A 10);
        ^{A +}
        "#;

    let expected_error = "Ошибка: некорректный формат выражения в константе";

    let result = parse_config(input);
    assert_eq!(result, expected_error);
}

// Пример с использованием оператора вычитания
#[test]
fn test_subtraction_in_expression() {
    let input = r#"
        (def BASE 15);
        (def OFFSET 5);
        ^{BASE - OFFSET}
        "#;

    let expected_output = r#"
        10
        "#;

    let result = parse_config(input);
    assert_eq!(result, expected_output);
}
