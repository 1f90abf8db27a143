use clojure_rs::environment::Environment;
use clojure_rs::eval::{eval_form, Evaluable};
use clojure_rs::reader::try_read;
use clojure_rs::value::{Symbol, Value};

fn run(env: &mut Environment, text: &str) -> Value {
    let (_, form) = try_read(text).expect("the form reads");
    form.eval(env, 0)
}

fn is_condition(v: &Value) -> bool {
    matches!(v, Value::Condition(_))
}

#[test]
fn self_evaluating_values() {
    let mut env = Environment::standard();
    assert_eq!(Value::I32(7).eval(&mut env, 0), Value::I32(7));
    assert_eq!(Value::String("cat".to_string()).eval(&mut env, 0), Value::String("cat".to_string()));
    assert_eq!(Value::Nil.eval(&mut env, 0), Value::Nil);
    assert_eq!(run(&mut env, "()"), Value::PersistentList(vec![]));
}

#[test]
fn quote_returns_argument_unevaluated() {
    let mut env = Environment::standard();
    assert_eq!(run(&mut env, "(quote 5)"), Value::I32(5));
    assert_eq!(
        run(&mut env, "(quote (1 2))"),
        Value::PersistentList(vec![Value::I32(1), Value::I32(2)])
    );
    assert_eq!(
        run(&mut env, "(quote (+ 1 2))").to_string(),
        "(+ 1 2)".to_string()
    );
}

#[test]
fn def_then_lookup() {
    let mut env = Environment::standard();
    assert_eq!(run(&mut env, "(def x 42)"), Value::Symbol(Symbol::intern("x")));
    assert_eq!(run(&mut env, "x"), Value::I32(42));
    run(&mut env, "(def x 7)");
    assert_eq!(run(&mut env, "x"), Value::I32(7));
}

#[test]
fn let_scoping() {
    let mut env = Environment::standard();
    assert_eq!(run(&mut env, "(let [x 1 y (+ x 1)] y)"), Value::I32(2));
    let x = run(&mut env, "x");
    let y = run(&mut env, "y");
    assert_eq!(x.to_string(), "#Condition[\"Unable to resolve symbol: x\"]".to_string());
    assert!(is_condition(&y));
    assert_eq!(run(&mut env, "(let [a 3])"), Value::Nil);
}

#[test]
fn closures_capture_their_frame() {
    let mut env = Environment::standard();
    run(&mut env, "(def make-adder (fn [n] (fn [x] (+ x n))))");
    run(&mut env, "(def add5 (make-adder 5))");
    assert_eq!(run(&mut env, "(add5 10)"), Value::I32(15));
    run(&mut env, "(def n 100)");
    assert_eq!(run(&mut env, "(add5 10)"), Value::I32(15));
    run(&mut env, "(def add1 (make-adder 1))");
    assert_eq!(run(&mut env, "(add1 10)"), Value::I32(11));
    assert_eq!(run(&mut env, "(add5 1)"), Value::I32(6));
}

#[test]
fn arity_errors_are_values() {
    let mut env = Environment::standard();
    assert_eq!(
        run(&mut env, "(quote 1 2)").to_string(),
        "#Condition[\"Wrong number of arguments (Given: 2, Expected: 1)\"]".to_string()
    );
    assert_eq!(run(&mut env, "(+ 1 2)"), Value::I32(3));
    assert_eq!(
        run(&mut env, "(quote)").to_string(),
        "#Condition[\"Wrong number of arguments (Given: 0, Expected: 1)\"]".to_string()
    );
    assert_eq!(
        run(&mut env, "(def)").to_string(),
        "#Condition[\"Wrong number of arguments (Given: 0, Expected: 1-2)\"]".to_string()
    );
    assert_eq!(
        run(&mut env, "(defmacro m)").to_string(),
        "#Condition[\"Wrong number of arguments (Given: 1, Expected: >=2)\"]".to_string()
    );
    assert_eq!(
        run(&mut env, "(fn)").to_string(),
        "#Condition[\"Wrong number of arguments (Given: 0, Expected: >=1)\"]".to_string()
    );
    assert_eq!(
        run(&mut env, "(let)").to_string(),
        "#Condition[\"Wrong number of arguments (Given: 0, Expected: 1-2)\"]".to_string()
    );
    assert_eq!(
        run(&mut env, "(eval 1 2)").to_string(),
        "#Condition[\"Wrong number of arguments (Given: 2, Expected: 1)\"]".to_string()
    );
    assert_eq!(
        run(&mut env, "((fn [a b] a) 1)").to_string(),
        "#Condition[\"Wrong number of arguments (Given: 1, Expected: 2)\"]".to_string()
    );
}

#[test]
fn shape_errors_are_values() {
    let mut env = Environment::standard();
    assert_eq!(
        run(&mut env, "(def 1 2)").to_string(),
        "#Condition[\"First argument to def must be a symbol\"]".to_string()
    );
    assert_eq!(
        run(&mut env, "(fn x 1)").to_string(),
        "#Condition[\"First argument to fn must be a vector\"]".to_string()
    );
    assert_eq!(
        run(&mut env, "(let x 1)").to_string(),
        "#Condition[\"Bindings to let should be a vector\"]".to_string()
    );
    assert_eq!(
        run(&mut env, "(let [x] x)").to_string(),
        "#Condition[\"Bindings to let should come in pairs\"]".to_string()
    );
    assert_eq!(
        run(&mut env, "(+ 1 \"a\")").to_string(),
        "#Condition[\"+ expects integers\"]".to_string()
    );
    assert_eq!(
        run(&mut env, "(+ 2147483647 1)").to_string(),
        "#Condition[\"Integer overflow\"]".to_string()
    );
}

#[test]
fn non_applicable_heads() {
    let mut env = Environment::standard();
    assert_eq!(
        run(&mut env, "(1 2 3)").to_string(),
        "#Condition[\"Execution Error: clojure.lang.Integer cannot be cast to clojure.lang.IFn\"]"
            .to_string()
    );
    assert_eq!(
        run(&mut env, "(\"a\" 2)").to_string(),
        "#Condition[\"Execution Error: rust.std.string.String cannot be cast to clojure.lang.IFn\"]"
            .to_string()
    );
}

#[test]
fn lexical_eval_evaluates_twice() {
    let mut env = Environment::standard();
    assert_eq!(run(&mut env, "(eval (quote (+ 1 2)))"), Value::I32(3));
}

#[test]
fn fn_bodies() {
    let mut env = Environment::standard();
    assert_eq!(run(&mut env, "((fn [x]) 1)"), Value::Nil);
    assert_eq!(run(&mut env, "((fn [x] (def y x) (+ y 1)) 4)"), Value::I32(5));
    assert_eq!(run(&mut env, "((fn [x 3 y] (+ x y)) 1 2)"), Value::I32(3));
}

#[test]
fn macros_receive_unevaluated_forms() {
    let mut env = Environment::standard();
    assert_eq!(run(&mut env, "(defmacro twice [x] [x x])"), Value::Symbol(Symbol::intern("twice")));
    assert_eq!(
        run(&mut env, "(twice (+ 1 2))"),
        Value::PersistentVector(vec![Value::I32(3), Value::I32(3)])
    );
    assert_eq!(run(&mut env, "(defmacro unless-one [x y] (quote 9))").to_string(), "unless-one");
    assert_eq!(run(&mut env, "(unless-one (undefined-thing) 2)"), Value::I32(9));
}

#[test]
fn vectors_and_maps_evaluate_their_elements() {
    let mut env = Environment::standard();
    run(&mut env, "(def a 1)");
    assert_eq!(run(&mut env, "[a (+ a 1)]").to_string(), "[1 2]".to_string());
    assert_eq!(run(&mut env, "{a (+ a 1) \"k\" a}").to_string(), "{1 2 \"k\" 1}".to_string());
    assert_eq!(run(&mut env, "{a 1 1 2}").to_string(), "{1 2}".to_string());
}

#[test]
fn do_returns_last_argument() {
    let mut env = Environment::standard();
    assert_eq!(run(&mut env, "(do 1 2 3)"), Value::I32(3));
    assert_eq!(run(&mut env, "(do)"), Value::Nil);
}

#[test]
fn nesting_beyond_depth_budget_is_a_condition() {
    let mut env = Environment::standard();
    run(&mut env, "(def loop (fn [x] (loop x)))");
    assert_eq!(
        run(&mut env, "(loop 1)").to_string(),
        "#Condition[\"Evaluation nested too deeply\"]".to_string()
    );
    let (_, form) = try_read("(+ 1 2)").unwrap();
    assert_eq!(eval_form(&form, &mut env, 0, 0).to_string(), "#Condition[\"Evaluation nested too deeply\"]");
    assert_eq!(eval_form(&form, &mut env, 0, 1), Value::I32(3));
}

#[test]
fn evaluation_of_a_value_vector_as_list() {
    let mut env = Environment::standard();
    let form = vec![Value::Symbol(Symbol::intern("+")), Value::I32(2), Value::I32(3)];
    assert_eq!(form.eval(&mut env, 0), Value::I32(5));
    assert_eq!(*form.eval_to_rc(&mut env, 0), Value::I32(5));
}
