use doommy::config_parser::{merge, ConfigParser};
use doommy::number::{checked_power, read_number};
use doommy::resolver::{ConfigError, Constants};
use doommy::syntax::{
    parse_document, scan, Chain, Class, Node, Span, SyntaxError, MAX_DEPTH,
};
use doommy::value::{bytes_lt, dict_put, Value};

fn key(name: &str) -> Vec<u8> {
    name.as_bytes().to_vec()
}

fn numbers(items: &[i32]) -> Value {
    Value::List(items.iter().map(|n| Value::Number(*n)).collect())
}

fn document(input: &str) -> Vec<(Vec<u8>, Value)> {
    ConfigParser::parse(input).unwrap().0
}

fn failure(input: &str) -> ConfigError {
    ConfigParser::parse(input).unwrap_err()
}

fn span_of(input: &str, word: &str) -> Span {
    let start = input.find(word).unwrap();
    Span { start, end: start + word.len() }
}

#[test]
fn sum_and_pow_of_constants() {
    let out = document("(def A 10); (def B 20); $[RES: ^{A + B + pow(A, 2)}];");
    assert_eq!(out, vec![(key("RES"), Value::Number(130))]);
}

#[test]
fn list_with_a_constant_goes_under_list() {
    let out = document("(def A 5); (list 1 2 A 10);");
    assert_eq!(out, vec![(key("List"), numbers(&[1, 2, 5, 10]))]);
}

#[test]
fn dictionary_with_number_and_list() {
    let out = document("$[ KEY: 10, OTHERKEY: (list 1 2 3) ];");
    assert_eq!(
        out,
        vec![(key("KEY"), Value::Number(10)), (key("OTHERKEY"), numbers(&[1, 2, 3]))]
    );
}

#[test]
fn dictionary_inside_list_inside_dictionary() {
    let out = document("(def A 2); $[KEY: (list A 3 $[ SUBKEY: ^{pow(A, 3)}])];");
    let inner = Value::Dictionary(vec![(key("SUBKEY"), Value::Number(8))]);
    assert_eq!(
        out,
        vec![(key("KEY"), Value::List(vec![Value::Number(2), Value::Number(3), inner]))]
    );
}

#[test]
fn list_keeps_source_order() {
    let out = document("(list 3 1 2)");
    assert_eq!(out, vec![(key("List"), numbers(&[3, 1, 2]))]);
}

#[test]
fn dictionary_keys_come_out_sorted() {
    let out = document("$[ZETA: 1, ALPHA: 2, MID: 3, AB: 4, A: 5]");
    let keys: Vec<Vec<u8>> = out.iter().map(|e| e.0.clone()).collect();
    assert_eq!(keys, vec![key("A"), key("AB"), key("ALPHA"), key("MID"), key("ZETA")]);
    let nested = document("$[OUTER: $[B: 1, A: 2]]");
    assert_eq!(
        nested,
        vec![(
            key("OUTER"),
            Value::Dictionary(vec![(key("A"), Value::Number(2)), (key("B"), Value::Number(1))])
        )]
    );
}

#[test]
fn later_entry_with_same_key_wins() {
    assert_eq!(document("$[K: 1, K: 2]"), vec![(key("K"), Value::Number(2))]);
    assert_eq!(document("$[K: 1] $[K: 7, J: 3]"), vec![
        (key("J"), Value::Number(3)),
        (key("K"), Value::Number(7))
    ]);
    assert_eq!(document("(list 1) (list 2 3)"), vec![(key("List"), numbers(&[2, 3]))]);
}

#[test]
fn later_definition_shadows_earlier() {
    let (out, constants) = ConfigParser::parse("(def A 1); (def B A); (def A 2); $[X: A, Y: B]")
        .unwrap();
    assert_eq!(out, vec![(key("X"), Value::Number(2)), (key("Y"), Value::Number(1))]);
    assert_eq!(constants.bindings.len(), 3);
    assert_eq!(constants.lookup(b"A"), Some(Value::Number(2)));
    assert_eq!(constants.lookup(b"B"), Some(Value::Number(1)));
    assert_eq!(constants.lookup(b"C"), None);
}

#[test]
fn name_used_before_its_definition_is_undefined() {
    let input = "(def B A); (def A 1);";
    assert_eq!(failure(input), ConfigError::UndefinedConstant(span_of(input, "A")));
    let input = "(def A 1); (list A Q)";
    assert_eq!(failure(input), ConfigError::UndefinedConstant(span_of(input, "Q")));
}

#[test]
fn pow_values_and_errors() {
    assert_eq!(document("$[P: ^{pow(2, 3)}]"), vec![(key("P"), Value::Number(8))]);
    assert_eq!(document("$[P: ^{pow(2, 0)}]"), vec![(key("P"), Value::Number(1))]);
    let input = "^{pow(2, -1)}";
    assert_eq!(failure(input), ConfigError::InvalidExponent(span_of(input, "pow")));
    let input = "^{pow(2, 31)}";
    assert_eq!(failure(input), ConfigError::NumericOverflow(span_of(input, "pow")));
    assert_eq!(
        document("$[P: ^{pow(-2, 31)}]"),
        vec![(key("P"), Value::Number(-2147483648))]
    );
    let input = "(def L (list 1)); ^{pow(L, 2)}";
    assert_eq!(failure(input), ConfigError::UnsupportedOperation(span_of(input, "pow")));
}

#[test]
fn checked_power_is_exact() {
    assert_eq!(checked_power(2, 3), Some(8));
    assert_eq!(checked_power(2, 0), Some(1));
    assert_eq!(checked_power(0, 0), Some(1));
    assert_eq!(checked_power(0, 4000000000), Some(0));
    assert_eq!(checked_power(1, 4000000000), Some(1));
    assert_eq!(checked_power(-1, 4000000001), Some(-1));
    assert_eq!(checked_power(-1, 4000000000), Some(1));
    assert_eq!(checked_power(3, 19), Some(1162261467));
    assert_eq!(checked_power(3, 20), None);
    assert_eq!(checked_power(2, 30), Some(1073741824));
    assert_eq!(checked_power(2, 31), None);
    assert_eq!(checked_power(-2, 31), Some(i32::MIN));
    assert_eq!(checked_power(-2, 32), None);
    assert_eq!(checked_power(46341, 2), None);
    assert_eq!(checked_power(46340, 2), Some(2147395600));
}

#[test]
fn read_number_is_exact() {
    assert_eq!(read_number(b"0"), Some(0));
    assert_eq!(read_number(b"42"), Some(42));
    assert_eq!(read_number(b"-42"), Some(-42));
    assert_eq!(read_number(b"+7"), Some(7));
    assert_eq!(read_number(b"2147483647"), Some(i32::MAX));
    assert_eq!(read_number(b"2147483648"), None);
    assert_eq!(read_number(b"-2147483648"), Some(i32::MIN));
    assert_eq!(read_number(b"-2147483649"), None);
    assert_eq!(read_number(b"00000000000000000000012"), Some(12));
    assert_eq!(read_number(b"99999999999999999999999999"), None);
}

#[test]
fn literal_out_of_range_overflows() {
    let input = "(list 2147483648)";
    assert_eq!(failure(input), ConfigError::NumericOverflow(span_of(input, "2147483648")));
    assert_eq!(document("(list -2147483648)"), vec![(key("List"), numbers(&[i32::MIN]))]);
}

#[test]
fn sum_out_of_range_overflows() {
    let input = "^{2147483647 + 1}";
    assert_eq!(failure(input), ConfigError::NumericOverflow(span_of(input, "+")));
    let input = "^{-2147483648 - 1}";
    assert_eq!(failure(input), ConfigError::NumericOverflow(Span { start: 14, end: 15 }));
    assert_eq!(document("$[V: ^{2147483646 + 1}]"), vec![(key("V"), Value::Number(i32::MAX))]);
}

#[test]
fn other_operators_are_rejected() {
    for op in ["*", "/", "%"] {
        let input = format!("(def A 6); ^{{A {} 2}}", op);
        assert_eq!(failure(&input), ConfigError::UnsupportedOperation(span_of(&input, op)));
    }
    let input = "(def L (list 1)); ^{L + 2}";
    assert_eq!(failure(input), ConfigError::UnsupportedOperation(span_of(input, "+")));
}

#[test]
fn sums_fold_from_the_left() {
    assert_eq!(document("$[V: ^{10 - 3 - 2}]"), vec![(key("V"), Value::Number(5))]);
    assert_eq!(document("$[V: ^{10 - (3 - 2)}]"), vec![(key("V"), Value::Number(9))]);
    assert_eq!(document("$[V: ^{1 + -2}]"), vec![(key("V"), Value::Number(-1))]);
    assert_eq!(document("$[V: ^{pow(1 + 1, pow(2, 2)) - 6}]"), vec![(key("V"), Value::Number(10))]);
}

#[test]
fn expression_unwraps_to_any_value() {
    assert_eq!(document("(def L (list 1 2)); $[V: ^{L}]"), vec![(key("V"), numbers(&[1, 2]))]);
    assert_eq!(document("(def L (list 1 2)); $[V: ^{(L)}]"), vec![(key("V"), numbers(&[1, 2]))]);
}

#[test]
fn bare_number_contributes_nothing() {
    assert_eq!(document("^{1 + 2}"), vec![]);
    assert_eq!(document(""), vec![]);
    assert_eq!(document("  \n\t "), vec![]);
    let input = "^{X}";
    assert_eq!(failure(input), ConfigError::UndefinedConstant(span_of(input, "X")));
}

#[test]
fn syntax_errors_carry_their_offset() {
    assert_eq!(failure("(list 1 2"), ConfigError::Syntax(SyntaxError::UnclosedList(9)));
    assert_eq!(failure("(list (list 1) "), ConfigError::Syntax(SyntaxError::UnclosedList(15)));
    assert_eq!(failure("$[A 1]"), ConfigError::Syntax(SyntaxError::MalformedDictionary(4)));
    assert_eq!(failure("$[A: 1"), ConfigError::Syntax(SyntaxError::MalformedDictionary(6)));
    assert_eq!(failure("$[A: 1,]"), ConfigError::Syntax(SyntaxError::MalformedDictionary(7)));
    assert_eq!(failure("$[1: 1]"), ConfigError::Syntax(SyntaxError::MalformedDictionary(2)));
    assert_eq!(failure("^{1 +}"), ConfigError::Syntax(SyntaxError::MalformedExpression(5)));
    assert_eq!(failure("^{1 + 2"), ConfigError::Syntax(SyntaxError::MalformedExpression(7)));
    assert_eq!(failure("^{(1 + 2}"), ConfigError::Syntax(SyntaxError::MalformedExpression(8)));
    assert_eq!(failure("^{pow(1 2)}"), ConfigError::Syntax(SyntaxError::MalformedExpression(8)));
    assert_eq!(failure("(def A 1)"), ConfigError::Syntax(SyntaxError::UnexpectedInput(9)));
    assert_eq!(failure("(def 1 1);"), ConfigError::Syntax(SyntaxError::UnexpectedInput(5)));
    assert_eq!(failure("(set 1)"), ConfigError::Syntax(SyntaxError::UnexpectedInput(1)));
    assert_eq!(failure("12"), ConfigError::Syntax(SyntaxError::UnexpectedInput(0)));
    assert_eq!(failure("(list 1) )"), ConfigError::Syntax(SyntaxError::UnexpectedInput(9)));
}

#[test]
fn syntax_error_comes_before_any_other() {
    assert_eq!(
        failure("(def A B); (list 1"),
        ConfigError::Syntax(SyntaxError::UnclosedList(18))
    );
}

#[test]
fn same_input_gives_same_output() {
    let input = "(def A 2); $[KEY: (list A 3 $[ SUBKEY: ^{pow(A, 3)}])]; (list A)";
    assert_eq!(ConfigParser::parse(input), ConfigParser::parse(input));
}

#[test]
fn syntax_tree_of_a_definition() {
    let tree = parse_document(b"(def A 10);").unwrap();
    let expected = Chain::Link(
        Span { start: 0, end: 11 },
        Box::new(Node::Define(
            Span { start: 5, end: 6 },
            Box::new(Node::Number(Span { start: 7, end: 9 })),
        )),
        Box::new(Chain::End),
    );
    assert_eq!(tree, expected);
}

#[test]
fn scan_finds_the_end_of_a_run() {
    assert_eq!(scan(b"  \tab", 0, Class::Blank), 3);
    assert_eq!(scan(b"abc_1 x", 0, Class::NamePart), 5);
    assert_eq!(scan(b"123a", 0, Class::Digit), 3);
    assert_eq!(scan(b"123a", 3, Class::Digit), 3);
    assert_eq!(scan(b"12", 2, Class::Digit), 2);
}

#[test]
fn keys_are_ordered_byte_by_byte() {
    assert!(bytes_lt(b"A", b"B"));
    assert!(bytes_lt(b"A", b"AB"));
    assert!(bytes_lt(b"", b"A"));
    assert!(!bytes_lt(b"A", b"A"));
    assert!(!bytes_lt(b"B", b"AB"));
    assert!(bytes_lt(b"Z", b"a"));
}

#[test]
fn dict_put_inserts_in_order_and_replaces() {
    let mut entries = Vec::new();
    dict_put(&mut entries, key("M"), Value::Number(1));
    dict_put(&mut entries, key("A"), Value::Number(2));
    dict_put(&mut entries, key("Z"), Value::Number(3));
    dict_put(&mut entries, key("M"), Value::Number(4));
    assert_eq!(entries, vec![
        (key("A"), Value::Number(2)),
        (key("M"), Value::Number(4)),
        (key("Z"), Value::Number(3))
    ]);
}

#[test]
fn merge_follows_the_kind_of_value() {
    let mut out = vec![(key("B"), Value::Number(1))];
    merge(&mut out, Value::Number(9));
    assert_eq!(out, vec![(key("B"), Value::Number(1))]);
    merge(&mut out, numbers(&[1]));
    assert_eq!(out, vec![(key("B"), Value::Number(1)), (key("List"), numbers(&[1]))]);
    merge(&mut out, Value::Dictionary(vec![(key("A"), Value::Number(0)), (key("B"), Value::Number(5))]));
    assert_eq!(out, vec![
        (key("A"), Value::Number(0)),
        (key("B"), Value::Number(5)),
        (key("List"), numbers(&[1]))
    ]);
}

#[test]
fn constants_hand_out_independent_copies() {
    let mut constants = Constants::new();
    constants.define(key("L"), numbers(&[1, 2]));
    let mut copy = constants.lookup(b"L").unwrap();
    if let Value::List(items) = &mut copy {
        items.push(Value::Number(3));
    }
    assert_eq!(constants.lookup(b"L"), Some(numbers(&[1, 2])));
    assert_eq!(numbers(&[1, 2]).deep_copy(), numbers(&[1, 2]));
}

#[test]
fn failed_definition_leaves_constants_unchanged() {
    let src = b"(def A Q);";
    let tree = parse_document(src).unwrap();
    let mut parser = ConfigParser::new();
    if let Chain::Link(_, node, _) = tree {
        if let Node::Define(name, value) = *node {
            let r = parser.parse_def_statement(src, name, &value);
            assert_eq!(r, Err(ConfigError::UndefinedConstant(Span { start: 7, end: 8 })));
        } else {
            panic!("no definition");
        }
    } else {
        panic!("no statement");
    }
    assert_eq!(parser.constants.bindings.len(), 0);
}

#[test]
fn nesting_is_limited() {
    let nested = |levels: usize| format!("{}1{}", "(list ".repeat(levels), ")".repeat(levels));
    let mut expected = Value::Number(1);
    for _ in 0..MAX_DEPTH - 1 {
        expected = Value::List(vec![expected]);
    }
    let deepest = nested(MAX_DEPTH - 1);
    assert_eq!(document(&deepest), vec![(key("List"), expected)]);
    let too_deep = nested(MAX_DEPTH);
    assert_eq!(
        failure(&too_deep),
        ConfigError::Syntax(SyntaxError::TooDeep(6 * MAX_DEPTH))
    );
    let parens = format!("^{{{}1{}}}", "(".repeat(MAX_DEPTH - 2), ")".repeat(MAX_DEPTH - 2));
    assert_eq!(document(&parens), vec![]);
    let parens = format!("^{{{}1{}}}", "(".repeat(MAX_DEPTH - 1), ")".repeat(MAX_DEPTH - 1));
    assert_eq!(
        failure(&parens),
        ConfigError::Syntax(SyntaxError::TooDeep(2 + MAX_DEPTH - 1))
    );
}

#[test]
fn long_list_is_not_nesting() {
    let mut input = String::from("(list");
    let mut expected = Vec::new();
    for i in 0..1000 {
        input.push_str(&format!(" {}", i));
        expected.push(Value::Number(i));
    }
    input.push(')');
    assert_eq!(document(&input), vec![(key("List"), Value::List(expected))]);
}
