use kalk::syntax::{Rule, Tree};
use kalk::types::{Error, Value};
use kalk::State;

fn leaf(rule: Rule, text: &str) -> Tree {
    Tree { rule, text: text.to_string(), children: vec![] }
}

fn node(rule: Rule, children: Vec<Tree>) -> Tree {
    Tree { rule, text: String::new(), children }
}

fn numlit(text: &str) -> Tree {
    leaf(Rule::number_lit, text)
}

fn ident(name: &str) -> Tree {
    leaf(Rule::identifier, name)
}

fn op(text: &str) -> Tree {
    leaf(Rule::operator, text)
}

fn row(entries: Vec<Tree>) -> Tree {
    node(Rule::matrix_row_lit, entries)
}

fn matrix(rows: Vec<Tree>) -> Tree {
    node(Rule::matrix_lit, rows)
}

fn num(x: f64) -> Value {
    Value::Number(x.to_bits())
}

fn mat(entries: Vec<f64>, width: usize) -> Value {
    Value::Matrix(entries.into_iter().map(num).collect(), width)
}

fn resolve_ok(state: &mut State, tree: &Tree) -> Value {
    match state.resolve_expression(tree) {
        Ok(v) => v,
        Err(_) => panic!("resolution failed"),
    }
}

#[test]
fn parse_simple_statement() {
    let mut state = State::new();
    // the tree of "[0, 1; 1, x; 1, 0] * [1, 0, 0; 0, 1, 0]"
    let left = matrix(vec![
        row(vec![numlit("0"), numlit("1")]),
        row(vec![numlit("1"), ident("x")]),
        row(vec![numlit("1"), numlit("0")]),
    ]);
    let right = matrix(vec![
        row(vec![numlit("1"), numlit("0"), numlit("0")]),
        row(vec![numlit("0"), numlit("1"), numlit("0")]),
    ]);
    let tree = node(Rule::prod_expr, vec![left, op("*"), right]);

    state.set_var("x".to_string(), Tree {
        rule: Rule::number_lit,
        text: "2".to_string(),
        children: vec![],
    });

    println!("{}", tree.render());
    let value = resolve_ok(&mut state, &tree);
    println!("{}", value.render(true));
    assert!(value.equal(&mat(vec![0.0, 1.0, 0.0, 1.0, 2.0, 0.0, 1.0, 0.0, 0.0], 3)));
}

#[test]
fn product_binds_before_sum() {
    // 2 + 3 * 4
    let tree = node(Rule::sum_expr, vec![
        numlit("2"),
        op("+"),
        node(Rule::prod_expr, vec![numlit("3"), op("*"), numlit("4")]),
    ]);
    let mut state = State::new();
    assert!(resolve_ok(&mut state, &tree).equal(&num(14.0)));
}

#[test]
fn parentheses_group_the_sum() {
    // (2 + 3) * 4
    let tree = node(Rule::prod_expr, vec![
        node(Rule::sum_expr, vec![numlit("2"), op("+"), numlit("3")]),
        op("*"),
        numlit("4"),
    ]);
    let mut state = State::new();
    assert!(resolve_ok(&mut state, &tree).equal(&num(20.0)));
}

#[test]
fn exponent_nests_right() {
    // 2 ^ 3 ^ 2, nested right-associatively by the front end
    let tree = node(Rule::exp_expr, vec![
        numlit("2"),
        op("^"),
        node(Rule::exp_expr, vec![numlit("3"), op("^"), numlit("2")]),
    ]);
    let mut state = State::new();
    assert!(resolve_ok(&mut state, &tree).equal(&num(512.0)));
}

#[test]
fn matrix_literal_product() {
    // [1,2;3,4] * [5,6;7,8]
    let tree = node(Rule::prod_expr, vec![
        matrix(vec![row(vec![numlit("1"), numlit("2")]), row(vec![numlit("3"), numlit("4")])]),
        op("*"),
        matrix(vec![row(vec![numlit("5"), numlit("6")]), row(vec![numlit("7"), numlit("8")])]),
    ]);
    let mut state = State::new();
    assert!(resolve_ok(&mut state, &tree).equal(&mat(vec![19.0, 22.0, 43.0, 50.0], 2)));
}

#[test]
fn unbound_identifier_is_resolve_error() {
    let mut state = State::new();
    assert!(matches!(state.resolve_expression(&ident("z")), Err(Error::ResolveError)));
}

#[test]
fn ragged_matrix_is_definition_error() {
    // [1,2;3]
    let tree = matrix(vec![row(vec![numlit("1"), numlit("2")]), row(vec![numlit("3")])]);
    let mut state = State::new();
    assert!(matches!(state.resolve_expression(&tree), Err(Error::DefinitionError)));
}

#[test]
fn matrix_child_must_be_a_row() {
    let tree = matrix(vec![numlit("1")]);
    let mut state = State::new();
    assert!(matches!(state.resolve_expression(&tree), Err(Error::DefinitionError)));
}

#[test]
fn matrix_entry_must_be_a_scalar() {
    let inner = matrix(vec![row(vec![numlit("1")])]);
    let tree = matrix(vec![row(vec![inner])]);
    let mut state = State::new();
    assert!(matches!(state.resolve_expression(&tree), Err(Error::DefinitionError)));
}

#[test]
fn empty_matrix_resolves() {
    let tree = matrix(vec![]);
    let mut state = State::new();
    let v = resolve_ok(&mut state, &tree);
    assert_eq!(v.size(), (0, 0));
}

#[test]
fn memoized_identifier_keeps_its_value_until_rebound() {
    let mut state = State::new();
    state.set_var("x".to_string(), numlit("2"));
    // x + x: the second occurrence is served from the memo
    let tree = node(Rule::sum_expr, vec![ident("x"), op("+"), ident("x")]);
    assert!(resolve_ok(&mut state, &tree).equal(&num(4.0)));
    let again = resolve_ok(&mut state, &ident("x"));
    assert!(again.equal(&num(2.0)));
    // rebinding clears the memo: the stale value is gone
    state.set_var("x".to_string(), numlit("3"));
    assert!(resolve_ok(&mut state, &tree).equal(&num(6.0)));
}

#[test]
fn cache_var_seeds_the_memo() {
    let mut state = State::new();
    state.set_var("x".to_string(), numlit("2"));
    state.cache_var("x".to_string(), num(2.0));
    assert!(resolve_ok(&mut state, &ident("x")).equal(&num(2.0)));
}

#[test]
fn bindings_resolve_through_chains() {
    let mut state = State::new();
    state.set_var("a".to_string(), numlit("5"));
    state.set_var("b".to_string(), ident("a"));
    assert!(resolve_ok(&mut state, &ident("b")).equal(&num(5.0)));
}

#[test]
fn malformed_numeral_is_resolve_error() {
    let mut state = State::new();
    assert!(matches!(state.resolve_expression(&numlit("2x")), Err(Error::ResolveError)));
}

#[test]
fn fractional_numerals_parse() {
    let mut state = State::new();
    assert!(resolve_ok(&mut state, &numlit("2.5")).equal(&num(2.5)));
}

#[test]
fn unsupported_kind_is_resolve_error() {
    let mut state = State::new();
    assert!(matches!(state.resolve_expression(&op("+")), Err(Error::ResolveError)));
    assert!(matches!(
        state.resolve_expression(&node(Rule::document, vec![])),
        Err(Error::ResolveError)
    ));
}

#[test]
fn unknown_sum_operator_is_resolve_error() {
    let tree = node(Rule::sum_expr, vec![numlit("2"), op("?"), numlit("3")]);
    let mut state = State::new();
    assert!(matches!(state.resolve_expression(&tree), Err(Error::ResolveError)));
}

#[test]
fn adjacency_multiplies_implicitly() {
    // 2 x with x bound to 3: juxtaposition multiplies
    let tree = node(Rule::prod_expr, vec![numlit("2"), ident("x")]);
    let mut state = State::new();
    state.set_var("x".to_string(), numlit("3"));
    assert!(resolve_ok(&mut state, &tree).equal(&num(6.0)));
}

#[test]
fn product_divides_on_slash() {
    let tree = node(Rule::prod_expr, vec![numlit("8"), op("/"), numlit("2")]);
    let mut state = State::new();
    assert!(resolve_ok(&mut state, &tree).equal(&num(4.0)));
}

#[test]
fn division_by_zero_propagates() {
    let tree = node(Rule::prod_expr, vec![numlit("8"), op("/"), numlit("0")]);
    let mut state = State::new();
    assert!(matches!(state.resolve_expression(&tree), Err(Error::ArithmeticError)));
}

#[test]
fn negation_applies_elementwise() {
    let tree = node(Rule::negate_expr, vec![matrix(vec![row(vec![numlit("1"), numlit("2")])])]);
    let mut state = State::new();
    assert!(resolve_ok(&mut state, &tree).equal(&mat(vec![-1.0, -2.0], 2)));
}

#[test]
fn tree_renders_for_diagnostics() {
    assert_eq!(numlit("2").render(), "number_lit(\"2\")");
    let tree = node(Rule::sum_expr, vec![numlit("2"), op("+"), numlit("3")]);
    assert_eq!(tree.render(), "sum_expr [number_lit(\"2\"), operator(\"+\"), number_lit(\"3\")]");
}
