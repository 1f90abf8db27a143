use clojure_rs::environment::Environment;
use clojure_rs::eval::Evaluable;
use clojure_rs::reader::try_read;
use clojure_rs::value::{TypeTag, Value};

#[test]
fn callables_equal_nothing() {
    let mut env = Environment::standard();
    let (_, form) = try_read("(fn [x] x)").unwrap();
    let f = form.eval(&mut env, 0);
    let g = f.duplicate();
    assert!(f != g);
    assert!(f != f.duplicate());
    assert_eq!(Value::LexicalEvalFn, Value::LexicalEvalFn);
    assert_eq!(Value::FnMacro, Value::FnMacro);
    assert!(Value::I32(1) != Value::String("1".to_string()));
    assert!(Value::PersistentList(vec![]) != Value::PersistentVector(vec![]));
}

#[test]
fn type_tags() {
    assert_eq!(Value::I32(1).type_tag(), TypeTag::I32);
    assert_eq!(Value::LexicalEvalFn.type_tag(), TypeTag::IFn);
    assert_eq!(Value::LetMacro.type_tag(), TypeTag::Macro);
    assert_eq!(Value::Nil.type_tag(), TypeTag::Nil);
    assert_eq!(TypeTag::PersistentVector.name(), "clojure.lang.PersistentVector".to_string());
}

#[test]
fn environment_frames() {
    let mut env = Environment::standard();
    let (_, def) = try_read("(def z 3)").unwrap();
    let child = env.new_child(0);
    def.eval(&mut env, child);
    let (_, z) = try_read("z").unwrap();
    assert_eq!(z.eval(&mut env, child), Value::I32(3));
    assert!(matches!(z.eval(&mut env, 0), Value::Condition(_)));
}
