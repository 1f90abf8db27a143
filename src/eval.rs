//! The evaluation engine: what a form means in a frame of an environment.
//!
//! Evaluation is total. Every language-level failure (an unbound symbol, a wrong
//! number of arguments, a head that cannot be applied, nesting deeper than the
//! depth budget) comes back as a `Condition` value inside the result.
use vstd::prelude::*;
use vstd::string::StringExecFns;
use crate::environment::{
    bind_spec, bindings_view, child_spec, lookup_spec, Binding, Environment, Frame, FrameModel,
};
use crate::text::{decimal, push_decimal};
use crate::value::{
    dict_assoc, entries_view, tag_of, values_view, Callable, Closure, Datum, FnModel, MapEntry,
    NativeFn, Symbol, TypeTag, Value,
};

verus! {

/// How deeply forms may nest during one evaluation.
pub const MAX_DEPTH: u64 = 256;

pub open spec fn cond(m: Seq<char>) -> Datum {
    Datum::Condition(m)
}

pub open spec fn msg_unresolved(name: Seq<char>) -> Seq<char> {
    "Unable to resolve symbol: "@ + name
}

pub open spec fn msg_arity(given: nat, expected: Seq<char>) -> Seq<char> {
    "Wrong number of arguments (Given: "@ + decimal(given) + ", Expected: "@ + expected + ")"@
}

pub open spec fn msg_not_applicable(t: TypeTag) -> Seq<char> {
    "Execution Error: "@ + t.name_spec() + " cannot be cast to clojure.lang.IFn"@
}

pub open spec fn msg_too_deep() -> Seq<char> {
    "Evaluation nested too deeply"@
}

pub open spec fn msg_def_name() -> Seq<char> {
    "First argument to def must be a symbol"@
}

pub open spec fn msg_fn_params() -> Seq<char> {
    "First argument to fn must be a vector"@
}

pub open spec fn msg_let_vector() -> Seq<char> {
    "Bindings to let should be a vector"@
}

pub open spec fn msg_let_odd() -> Seq<char> {
    "Bindings to let should come in pairs"@
}

pub open spec fn msg_macro_not_fn() -> Seq<char> {
    "Compiler Error: the body of a macro did not compile into a function"@
}

pub open spec fn msg_lost_frame() -> Seq<char> {
    "The frame a closure was defined in does not exist"@
}

pub open spec fn msg_add_type() -> Seq<char> {
    "+ expects integers"@
}

pub open spec fn msg_overflow() -> Seq<char> {
    "Integer overflow"@
}

/// The names among the parameter forms of `fn`; forms that are not symbols are skipped.
pub open spec fn param_names(ps: Seq<Datum>) -> Seq<Seq<char>>
    decreases ps.len(),
{
    if ps.len() == 0 {
        Seq::empty()
    } else {
        let rest = param_names(ps.drop_last());
        match ps.last() {
            Datum::Sym(n) => rest.push(n),
            _ => rest,
        }
    }
}

/// The body of a closure made from the arguments of `fn`: nil for none, the one
/// expression, or several expressions wrapped in `do`.
pub open spec fn fn_body(args: Seq<Datum>) -> Datum {
    if args.len() <= 1 {
        Datum::Nil
    } else if args.len() == 2 {
        args[1]
    } else {
        Datum::List(seq![Datum::Sym("do"@)] + args.drop_first())
    }
}

/// The sum of integer arguments, or the condition that stops it.
pub open spec fn add_spec(vals: Seq<Datum>) -> Datum
    decreases vals.len(),
{
    if vals.len() == 0 {
        Datum::Int(0)
    } else {
        match add_spec(vals.drop_last()) {
            Datum::Int(acc) => match vals.last() {
                Datum::Int(x) => if i32::MIN <= acc + x <= i32::MAX {
                    Datum::Int((acc + x) as i32)
                } else {
                    cond(msg_overflow())
                },
                _ => cond(msg_add_type()),
            },
            other => other,
        }
    }
}

/// The environment after the first `n` parameters are bound in frame `c`.
pub open spec fn bind_params(
    params: Seq<Seq<char>>,
    vals: Seq<Datum>,
    env: Seq<FrameModel>,
    c: nat,
    n: nat,
) -> Seq<FrameModel>
    decreases n,
{
    if n == 0 {
        env
    } else {
        bind_spec(
            bind_params(params, vals, env, c, (n - 1) as nat),
            c as int,
            params[n - 1],
            vals[n - 1],
        )
    }
}

/// Evaluates `d` in frame `f` of `env` with `fuel` levels of nesting left: the
/// result and the environment afterwards.
pub open spec fn eval_spec(d: Datum, env: Seq<FrameModel>, f: nat, fuel: nat) -> (Datum, Seq<
    FrameModel,
>)
    decreases fuel, 0nat, 0nat,
{
    match d {
        Datum::Sym(n) => match lookup_spec(env, f as int, n) {
            Some(v) => (v, env),
            None => (cond(msg_unresolved(n)), env),
        },
        Datum::List(s) => if s.len() == 0 {
            (d, env)
        } else if fuel == 0 {
            (cond(msg_too_deep()), env)
        } else {
            let (h, e1) = eval_spec(s[0], env, f, (fuel - 1) as nat);
            apply_spec(h, s.drop_first(), e1, f, (fuel - 1) as nat)
        },
        Datum::Vector(s) => if fuel == 0 {
            (cond(msg_too_deep()), env)
        } else {
            let (r, e1) = eval_all(s, env, f, (fuel - 1) as nat);
            (Datum::Vector(r), e1)
        },
        Datum::Dict(s) => if fuel == 0 {
            (cond(msg_too_deep()), env)
        } else {
            let (r, e1) = eval_entries(s, env, f, (fuel - 1) as nat);
            (Datum::Dict(r), e1)
        },
        _ => (d, env),
    }
}

/// Evaluates each of `s` in turn, left to right.
pub open spec fn eval_all(s: Seq<Datum>, env: Seq<FrameModel>, f: nat, fuel: nat) -> (Seq<
    Datum,
>, Seq<FrameModel>)
    decreases fuel, 1nat, s.len(),
{
    if s.len() == 0 {
        (Seq::empty(), env)
    } else {
        let (r, e1) = eval_all(s.drop_last(), env, f, fuel);
        let (x, e2) = eval_spec(s.last(), e1, f, fuel);
        (r.push(x), e2)
    }
}

/// Evaluates the key and then the value of each entry in turn, and gathers the
/// results into a map.
pub open spec fn eval_entries(s: Seq<(Datum, Datum)>, env: Seq<FrameModel>, f: nat, fuel: nat) -> (Seq<
    (Datum, Datum),
>, Seq<FrameModel>)
    decreases fuel, 1nat, s.len(),
{
    if s.len() == 0 {
        (Seq::empty(), env)
    } else {
        let (r, e1) = eval_entries(s.drop_last(), env, f, fuel);
        let (k, e2) = eval_spec(s.last().0, e1, f, fuel);
        let (v, e3) = eval_spec(s.last().1, e2, f, fuel);
        (dict_assoc(r, k, v), e3)
    }
}

/// Evaluates the pairs of a `let` binding vector, binding each symbol in frame `c`.
pub open spec fn let_bindings(bs: Seq<Datum>, n: nat, env: Seq<FrameModel>, c: nat, fuel: nat) -> Seq<
    FrameModel,
>
    decreases fuel, 1nat, n,
{
    if n == 0 {
        env
    } else {
        let e1 = let_bindings(bs, (n - 1) as nat, env, c, fuel);
        let (v, e2) = eval_spec(bs[2 * (n - 1) + 1], e1, c, fuel);
        match bs[2 * (n - 1)] {
            Datum::Sym(name) => bind_spec(e2, c as int, name, v),
            _ => e2,
        }
    }
}

/// Invokes a callable on argument values.
pub open spec fn invoke_spec(c: FnModel, vals: Seq<Datum>, env: Seq<FrameModel>, fuel: nat) -> (Datum, Seq<
    FrameModel,
>)
    decreases fuel, 1nat, 0nat,
{
    match c {
        FnModel::Native(NativeFn::Add) => (add_spec(vals), env),
        FnModel::Native(NativeFn::Do) => (
            if vals.len() == 0 {
                Datum::Nil
            } else {
                vals.last()
            },
            env,
        ),
        FnModel::Lambda { env: ce, params, body } => if ce >= env.len() {
            (cond(msg_lost_frame()), env)
        } else if params.len() != vals.len() {
            (cond(msg_arity(vals.len(), decimal(params.len()))), env)
        } else {
            let c = env.len();
            let e1 = bind_params(params, vals, child_spec(env, ce as int), c, params.len());
            eval_spec(*body, e1, c, fuel)
        },
    }
}

/// Applies the evaluated head `h` of a list to the list's other elements `args`.
///
/// `def` binds in the frame it is evaluated in, not in the root frame, so a `def`
/// inside a closure body or a `let` body binds locally. A closure keeps the frame
/// it was made in, and each call binds its parameters in a fresh child of that
/// frame. Parameter and binding entries that are not symbols are skipped.
pub open spec fn apply_spec(h: Datum, args: Seq<Datum>, env: Seq<FrameModel>, f: nat, fuel: nat) -> (Datum, Seq<
    FrameModel,
>)
    decreases fuel, 2nat, 0nat,
{
    match h {
        Datum::Func(c) => {
            let (vals, e1) = eval_all(args, env, f, fuel);
            invoke_spec(c, vals, e1, fuel)
        },
        Datum::LexicalEval => if args.len() != 1 {
            (cond(msg_arity(args.len(), "1"@)), env)
        } else {
            let (x, e1) = eval_spec(args[0], env, f, fuel);
            eval_spec(x, e1, f, fuel)
        },
        Datum::Macro(c) => {
            let (x, e1) = invoke_spec(c, args, env, fuel);
            eval_spec(x, e1, f, fuel)
        },
        Datum::Quote => if args.len() != 1 {
            (cond(msg_arity(args.len(), "1"@)), env)
        } else {
            (args[0], env)
        },
        Datum::Def => if args.len() == 0 || args.len() > 2 {
            (cond(msg_arity(args.len(), "1-2"@)), env)
        } else {
            let (val, e1) = if args.len() == 2 {
                let (v, e) = eval_spec(args[1], env, f, fuel);
                (Some(v), e)
            } else {
                (None, env)
            };
            match args[0] {
                Datum::Sym(n) => (
                    Datum::Sym(n),
                    match val {
                        Some(v) => bind_spec(e1, f as int, n, v),
                        None => e1,
                    },
                ),
                _ => (cond(msg_def_name()), e1),
            }
        },
        Datum::Defmacro => if args.len() < 2 {
            (cond(msg_arity(args.len(), ">=2"@)), env)
        } else {
            let fn_form = Datum::List(seq![Datum::Sym("fn"@)] + args.drop_first());
            let (fv, e1) = eval_spec(fn_form, env, f, fuel);
            let mv = match fv {
                Datum::Func(c) => Datum::Macro(c),
                _ => cond(msg_macro_not_fn()),
            };
            eval_spec(Datum::List(seq![Datum::Sym("def"@), args[0], mv]), e1, f, fuel)
        },
        Datum::FnForm => if args.len() < 1 {
            (cond(msg_arity(args.len(), ">=1"@)), env)
        } else {
            match args[0] {
                Datum::Vector(ps) => (
                    Datum::Func(
                        FnModel::Lambda {
                            env: f,
                            params: param_names(ps),
                            body: Box::new(fn_body(args)),
                        },
                    ),
                    env,
                ),
                _ => (cond(msg_fn_params()), env),
            }
        },
        Datum::Let => if args.len() < 1 || args.len() > 2 {
            (cond(msg_arity(args.len(), "1-2"@)), env)
        } else {
            match args[0] {
                Datum::Vector(bs) => if bs.len() % 2 != 0 {
                    (cond(msg_let_odd()), env)
                } else {
                    let c = env.len();
                    let e1 = let_bindings(bs, bs.len() / 2, child_spec(env, f as int), c, fuel);
                    if args.len() == 2 {
                        eval_spec(args[1], e1, c, fuel)
                    } else {
                        (Datum::Nil, e1)
                    }
                },
                _ => (cond(msg_let_vector()), env),
            }
        },
        _ => (cond(msg_not_applicable(tag_of(h))), env),
    }
}

fn condition(text: &str) -> (r: Value)
    ensures
        r@ == cond(text@),
{
    Value::Condition(String::from_str(text))
}

fn arity_condition(given: usize, expected: &str) -> (r: Value)
    ensures
        r@ == cond(msg_arity(given as nat, expected@)),
{
    let mut m = String::from_str("Wrong number of arguments (Given: ");
    push_decimal(&mut m, given as u64);
    m.append(", Expected: ");
    m.append(expected);
    m.append(")");
    Value::Condition(m)
}

fn lambda_arity_condition(given: usize, expected: usize) -> (r: Value)
    ensures
        r@ == cond(msg_arity(given as nat, decimal(expected as nat))),
{
    let mut m = String::from_str("Wrong number of arguments (Given: ");
    push_decimal(&mut m, given as u64);
    m.append(", Expected: ");
    push_decimal(&mut m, expected as u64);
    m.append(")");
    Value::Condition(m)
}

/// The elements of `items` from index `from` on, copied.
fn copy_from(items: &Vec<Value>, from: usize) -> (r: Vec<Value>)
    requires
        from <= items@.len(),
    ensures
        values_view(r@) == values_view(items@).subrange(from as int, items@.len() as int),
{
    let ghost v = values_view(items@);
    proof {
        crate::value::lemma_values_view_len(items@);
    }
    let mut r: Vec<Value> = Vec::new();
    let mut i = from;
    while i < items.len()
        invariant
            from <= i <= items@.len(),
            v == values_view(items@),
            v.len() == items@.len(),
            values_view(r@) == v.subrange(from as int, i as int),
        decreases items@.len() - i,
    {
        let x = items[i].duplicate();
        proof {
            crate::value::lemma_values_view_push(r@, x);
            crate::value::lemma_values_view_index(items@, i as int);
            assert(v.subrange(from as int, i + 1) =~= v.subrange(from as int, i as int).push(x@));
        }
        r.push(x);
        i = i + 1;
    }
    r
}

/// `head` followed by the elements of `items` from index `from` on, as a list.
fn list_with_head(head: Value, items: &Vec<Value>, from: usize) -> (r: Value)
    requires
        from <= items@.len(),
    ensures
        r@ == Datum::List(
            seq![head@] + values_view(items@).subrange(from as int, items@.len() as int),
        ),
{
    let rest = copy_from(items, from);
    let mut v: Vec<Value> = Vec::new();
    let ghost h = head@;
    proof {
        crate::value::lemma_values_view_push(v@, head);
    }
    v.push(head);
    let mut i: usize = 0;
    proof {
        crate::value::lemma_values_view_len(rest@);
    }
    while i < rest.len()
        invariant
            i <= rest@.len(),
            values_view(rest@).len() == rest@.len(),
            values_view(v@) == seq![h] + values_view(rest@).take(i as int),
        decreases rest@.len() - i,
    {
        let x = rest[i].duplicate();
        proof {
            crate::value::lemma_values_view_push(v@, x);
            crate::value::lemma_values_view_index(rest@, i as int);
            assert(seq![h] + values_view(rest@).take(i + 1) =~= (seq![h] + values_view(rest@).take(
                i as int,
            )).push(x@));
        }
        v.push(x);
        i = i + 1;
    }
    proof {
        assert(values_view(rest@).take(rest@.len() as int) =~= values_view(rest@));
    }
    Value::PersistentList(v)
}

/// Evaluates `form` in frame `f` with `fuel` levels of nesting left.
pub fn eval_form(form: &Value, env: &mut Environment, f: usize, fuel: u64) -> (r: Value)
    requires
        old(env).wf(),
        f < old(env)@.len(),
    ensures
        final(env).wf(),
        final(env)@.len() >= old(env)@.len(),
        (r@, final(env)@) == eval_spec(form@, old(env)@, f as nat, fuel as nat),
    decreases fuel, 0nat, 0nat,
{
    match form {
        Value::Symbol(sym) => match env.lookup(f, sym) {
            Some(v) => v,
            None => {
                let mut m = String::from_str("Unable to resolve symbol: ");
                m.append(sym.name.as_str());
                Value::Condition(m)
            },
        },
        Value::PersistentList(items) => {
            if items.len() == 0 {
                return Value::PersistentList(Vec::new());
            }
            if fuel == 0 {
                return condition("Evaluation nested too deeply");
            }
            proof {
                crate::value::lemma_values_view_index(items@, 0);
            }
            let head = eval_form(&items[0], env, f, fuel - 1);
            apply(&head, items, env, f, fuel - 1)
        },
        Value::PersistentVector(items) => {
            if fuel == 0 {
                return condition("Evaluation nested too deeply");
            }
            let r = eval_items(items, 0, env, f, fuel - 1);
            proof {
                assert(values_view(items@).subrange(0, items@.len() as int) =~= values_view(items@))
                    by {
                    crate::value::lemma_values_view_len(items@);
                }
            }
            Value::PersistentVector(r)
        },
        Value::PersistentListMap(entries) => {
            if fuel == 0 {
                return condition("Evaluation nested too deeply");
            }
            let r = eval_map_entries(entries, env, f, fuel - 1);
            Value::PersistentListMap(r)
        },
        _ => form.duplicate(),
    }
}

/// Evaluates the elements of `items` from index `start` on, left to right.
fn eval_items(items: &Vec<Value>, start: usize, env: &mut Environment, f: usize, fuel: u64) -> (r: Vec<
    Value,
>)
    requires
        old(env).wf(),
        f < old(env)@.len(),
        start <= items@.len(),
    ensures
        final(env).wf(),
        final(env)@.len() >= old(env)@.len(),
        (values_view(r@), final(env)@) == eval_all(
            values_view(items@).subrange(start as int, items@.len() as int),
            old(env)@,
            f as nat,
            fuel as nat,
        ),
    decreases fuel, 1nat, 0nat,
{
    let ghost v = values_view(items@);
    let ghost s = v.subrange(start as int, items@.len() as int);
    proof {
        crate::value::lemma_values_view_len(items@);
    }
    let mut r: Vec<Value> = Vec::new();
    let mut i = start;
    while i < items.len()
        invariant
            start <= i <= items@.len(),
            v == values_view(items@),
            v.len() == items@.len(),
            s == v.subrange(start as int, items@.len() as int),
            env.wf(),
            f < env@.len(),
            env@.len() >= old(env)@.len(),
            (values_view(r@), env@) == eval_all(s.take(i - start), old(env)@, f as nat, fuel as nat),
        decreases items@.len() - i,
    {
        let x = eval_form(&items[i], env, f, fuel);
        proof {
            crate::value::lemma_values_view_push(r@, x);
            crate::value::lemma_values_view_index(items@, i as int);
            assert(s.take(i + 1 - start).drop_last() =~= s.take(i - start));
        }
        r.push(x);
        i = i + 1;
    }
    proof {
        assert(s.take(i - start) =~= s);
    }
    r
}

/// Evaluates the key and then the value of each entry, gathering them into a map.
fn eval_map_entries(entries: &Vec<MapEntry>, env: &mut Environment, f: usize, fuel: u64) -> (r: Vec<
    MapEntry,
>)
    requires
        old(env).wf(),
        f < old(env)@.len(),
    ensures
        final(env).wf(),
        final(env)@.len() >= old(env)@.len(),
        (entries_view(r@), final(env)@) == eval_entries(
            entries_view(entries@),
            old(env)@,
            f as nat,
            fuel as nat,
        ),
    decreases fuel, 1nat, 0nat,
{
    let ghost s = entries_view(entries@);
    proof {
        crate::value::lemma_entries_view_len(entries@);
    }
    let mut r: Vec<MapEntry> = Vec::new();
    let mut i: usize = 0;
    while i < entries.len()
        invariant
            i <= entries@.len(),
            s == entries_view(entries@),
            s.len() == entries@.len(),
            env.wf(),
            f < env@.len(),
            env@.len() >= old(env)@.len(),
            (entries_view(r@), env@) == eval_entries(s.take(i as int), old(env)@, f as nat, fuel as nat),
        decreases entries@.len() - i,
    {
        proof {
            crate::value::lemma_entries_view_index(entries@, i as int);
        }
        let k = eval_form(&entries[i].key, env, f, fuel);
        let v = eval_form(&entries[i].val, env, f, fuel);
        crate::value::assoc(&mut r, k, v);
        proof {
            assert(s.take(i + 1).drop_last() =~= s.take(i as int));
        }
        i = i + 1;
    }
    proof {
        assert(s.take(i as int) =~= s);
    }
    r
}

/// Invokes `c` on the argument values `vals`.
fn invoke(c: &Callable, vals: &Vec<Value>, env: &mut Environment, fuel: u64) -> (r: Value)
    requires
        old(env).wf(),
    ensures
        final(env).wf(),
        final(env)@.len() >= old(env)@.len(),
        (r@, final(env)@) == invoke_spec(c@, values_view(vals@), old(env)@, fuel as nat),
    decreases fuel, 1nat, 0nat,
{
    let ghost vs = values_view(vals@);
    proof {
        crate::value::lemma_values_view_len(vals@);
    }
    match c {
        Callable::Native(NativeFn::Add) => add_values(vals),
        Callable::Native(NativeFn::Do) => {
            if vals.len() == 0 {
                Value::Nil
            } else {
                proof {
                    crate::value::lemma_values_view_index(vals@, vals@.len() - 1);
                }
                vals[vals.len() - 1].duplicate()
            }
        },
        Callable::Lambda(closure) => {
            if closure.env >= env.frames.len() {
                return condition("The frame a closure was defined in does not exist");
            }
            if closure.params.len() != vals.len() {
                return lambda_arity_condition(vals.len(), closure.params.len());
            }
            let ghost params = crate::value::symbols_view(closure.params@);
            let ghost e0 = env@;
            let frame = env.new_child(closure.env);
            let ghost e1 = env@;
            let mut i: usize = 0;
            while i < vals.len()
                invariant
                    i <= vals@.len(),
                    vals@.len() == closure.params@.len(),
                    vs == values_view(vals@),
                    vs.len() == vals@.len(),
                    params == crate::value::symbols_view(closure.params@),
                    frame == e0.len(),
                    env.wf(),
                    env@.len() == e1.len(),
                    e1.len() == e0.len() + 1,
                    env@ == bind_params(params, vs, e1, frame as nat, i as nat),
                decreases vals@.len() - i,
            {
                proof {
                    crate::value::lemma_values_view_index(vals@, i as int);
                }
                env.bind(frame, closure.params[i].duplicate(), vals[i].duplicate());
                i = i + 1;
            }
            eval_form(&closure.body, env, frame, fuel)
        },
    }
}

/// The sum of integer values, or the condition that stops it.
fn add_values(vals: &Vec<Value>) -> (r: Value)
    ensures
        r@ == add_spec(values_view(vals@)),
{
    let ghost vs = values_view(vals@);
    proof {
        crate::value::lemma_values_view_len(vals@);
    }
    let mut acc: i32 = 0;
    let mut i: usize = 0;
    while i < vals.len()
        invariant
            i <= vals@.len(),
            vs == values_view(vals@),
            vs.len() == vals@.len(),
            add_spec(vs.take(i as int)) == Datum::Int(acc),
        decreases vals@.len() - i,
    {
        proof {
            crate::value::lemma_values_view_index(vals@, i as int);
            assert(vs.take(i + 1).drop_last() =~= vs.take(i as int));
        }
        match &vals[i] {
            Value::I32(x) => {
                let sum: i64 = acc as i64 + *x as i64;
                if sum < i32::MIN as i64 || sum > i32::MAX as i64 {
                    proof {
                        lemma_add_stops(vs, i as int);
                    }
                    return condition("Integer overflow");
                }
                acc = sum as i32;
            },
            _ => {
                proof {
                    lemma_add_stops(vs, i as int);
                }
                return condition("+ expects integers");
            },
        }
        i = i + 1;
    }
    proof {
        assert(vs.take(i as int) =~= vs);
    }
    Value::I32(acc)
}

/// Once the sum stops on a condition, later arguments do not change it.
proof fn lemma_add_stops(vs: Seq<Datum>, i: int)
    requires
        0 <= i < vs.len(),
        add_spec(vs.take(i + 1)) is Condition,
    ensures
        add_spec(vs) == add_spec(vs.take(i + 1)),
    decreases vs.len() - i,
{
    if i + 1 < vs.len() {
        assert(vs.take(i + 2).drop_last() =~= vs.take(i + 1));
        lemma_add_stops(vs, i + 1);
    } else {
        assert(vs.take(i + 1) =~= vs);
    }
}

/// The names among the parameter forms of `fn`, in order.
fn param_symbols(ps: &Vec<Value>) -> (r: Vec<Symbol>)
    ensures
        crate::value::symbols_view(r@) == param_names(values_view(ps@)),
{
    let ghost v = values_view(ps@);
    proof {
        crate::value::lemma_values_view_len(ps@);
    }
    let mut r: Vec<Symbol> = Vec::new();
    let mut i: usize = 0;
    while i < ps.len()
        invariant
            i <= ps@.len(),
            v == values_view(ps@),
            v.len() == ps@.len(),
            crate::value::symbols_view(r@) == param_names(v.take(i as int)),
        decreases ps@.len() - i,
    {
        proof {
            crate::value::lemma_values_view_index(ps@, i as int);
            assert(v.take(i + 1).drop_last() =~= v.take(i as int));
        }
        match &ps[i] {
            Value::Symbol(sym) => {
                let ghost before = r@;
                r.push(sym.duplicate());
                proof {
                    assert(crate::value::symbols_view(r@) =~= crate::value::symbols_view(before).push(
                        sym.name@,
                    ));
                }
            },
            _ => {},
        }
        i = i + 1;
    }
    proof {
        assert(v.take(i as int) =~= v);
    }
    r
}

/// Applies the evaluated head of a list to the list's other elements,
/// `items[1..]`, which are handed over unevaluated.
fn apply(head: &Value, items: &Vec<Value>, env: &mut Environment, f: usize, fuel: u64) -> (r: Value)
    requires
        old(env).wf(),
        f < old(env)@.len(),
        items@.len() >= 1,
    ensures
        final(env).wf(),
        final(env)@.len() >= old(env)@.len(),
        (r@, final(env)@) == apply_spec(head@, values_view(items@).drop_first(), old(env)@, f as nat, fuel as nat),
    decreases fuel, 2nat, 0nat,
{
    let ghost v = values_view(items@);
    let ghost args = v.drop_first();
    proof {
        crate::value::lemma_values_view_len(items@);
        assert forall|j: int| 0 <= j < args.len() implies args[j] == items@[j + 1]@ by {
            crate::value::lemma_values_view_index(items@, j + 1);
        }
    }
    let n = items.len() - 1;
    match head {
        Value::IFn(c) => {
            let vals = eval_items(items, 1, env, f, fuel);
            proof {
                assert(v.subrange(1, items@.len() as int) =~= args);
            }
            invoke(c, &vals, env, fuel)
        },
        Value::LexicalEvalFn => {
            if n != 1 {
                return arity_condition(n, "1");
            }
            let x = eval_form(&items[1], env, f, fuel);
            eval_form(&x, env, f, fuel)
        },
        Value::Macro(c) => {
            let raw = copy_from(items, 1);
            proof {
                assert(v.subrange(1, items@.len() as int) =~= args);
            }
            let x = invoke(c, &raw, env, fuel);
            eval_form(&x, env, f, fuel)
        },
        Value::QuoteMacro => {
            if n != 1 {
                return arity_condition(n, "1");
            }
            items[1].duplicate()
        },
        Value::DefMacro => {
            if n == 0 || n > 2 {
                return arity_condition(n, "1-2");
            }
            let val = if n == 2 {
                Some(eval_form(&items[2], env, f, fuel))
            } else {
                None
            };
            match &items[1] {
                Value::Symbol(sym) => {
                    match val {
                        Some(x) => {
                            env.bind(f, sym.duplicate(), x);
                        },
                        None => {},
                    }
                    Value::Symbol(sym.duplicate())
                },
                _ => condition("First argument to def must be a symbol"),
            }
        },
        Value::DefmacroMacro => {
            if n < 2 {
                return arity_condition(n, ">=2");
            }
            let fn_form = list_with_head(Value::Symbol(Symbol::intern("fn")), items, 2);
            proof {
                assert(v.subrange(2, items@.len() as int) =~= args.drop_first());
            }
            let fv = eval_form(&fn_form, env, f, fuel);
            let mv = match fv {
                Value::IFn(c) => Value::Macro(c),
                _ => condition("Compiler Error: the body of a macro did not compile into a function"),
            };
            let mut def_items: Vec<Value> = Vec::new();
            def_items.push(Value::Symbol(Symbol::intern("def")));
            def_items.push(items[1].duplicate());
            def_items.push(mv);
            let def_form = Value::PersistentList(def_items);
            proof {
                let w = def_items@;
                assert(w.drop_last().drop_last().drop_last() =~= Seq::<Value>::empty());
                assert(values_view(w) =~= values_view(w.drop_last()).push(w.last()@));
                assert(values_view(w.drop_last()) =~= values_view(w.drop_last().drop_last()).push(
                    w[1]@,
                ));
                assert(values_view(w.drop_last().drop_last()) =~= values_view(
                    w.drop_last().drop_last().drop_last(),
                ).push(w[0]@));
                assert(values_view(w) =~= seq![w[0]@, w[1]@, w[2]@]);
            }
            eval_form(&def_form, env, f, fuel)
        },
        Value::FnMacro => {
            if n < 1 {
                return arity_condition(n, ">=1");
            }
            match &items[1] {
                Value::PersistentVector(ps) => {
                    let params = param_symbols(ps);
                    let body = if n == 1 {
                        Value::Nil
                    } else if n == 2 {
                        items[2].duplicate()
                    } else {
                        let b = list_with_head(Value::Symbol(Symbol::intern("do")), items, 2);
                        proof {
                            assert(v.subrange(2, items@.len() as int) =~= args.drop_first());
                        }
                        b
                    };
                    Value::IFn(Callable::Lambda(Closure { env: f, params, body: Box::new(body) }))
                },
                _ => condition("First argument to fn must be a vector"),
            }
        },
        Value::LetMacro => {
            if n < 1 || n > 2 {
                return arity_condition(n, "1-2");
            }
            match &items[1] {
                Value::PersistentVector(bs) => {
                    if bs.len() % 2 != 0 {
                        proof {
                            crate::value::lemma_values_view_len(bs@);
                        }
                        return condition("Bindings to let should come in pairs");
                    }
                    let ghost bv = values_view(bs@);
                    proof {
                        crate::value::lemma_values_view_len(bs@);
                    }
                    let ghost e0 = env@;
                    let frame = env.new_child(f);
                    let ghost e1 = env@;
                    let len = bs.len();
                    let pairs = len / 2;
                    let mut k: usize = 0;
                    while k < pairs
                        invariant
                            len == bs@.len(),
                            k <= pairs,
                            pairs * 2 == bs@.len(),
                            bv == values_view(bs@),
                            bv.len() == bs@.len(),
                            frame == e0.len(),
                            env.wf(),
                            env@.len() >= e1.len(),
                            e1.len() == e0.len() + 1,
                            env@ == let_bindings(bv, k as nat, e1, frame as nat, fuel as nat),
                        decreases pairs - k,
                    {
                        proof {
                            assert(2 * k + 1 < bs@.len());
                            crate::value::lemma_values_view_index(bs@, 2 * k as int);
                            crate::value::lemma_values_view_index(bs@, 2 * k + 1);
                        }
                        let x = eval_form(&bs[2 * k + 1], env, frame, fuel);
                        match &bs[2 * k] {
                            Value::Symbol(sym) => {
                                env.bind(frame, sym.duplicate(), x);
                            },
                            _ => {},
                        }
                        k = k + 1;
                    }
                    if n == 2 {
                        eval_form(&items[2], env, frame, fuel)
                    } else {
                        Value::Nil
                    }
                },
                _ => condition("Bindings to let should be a vector"),
            }
        },
        _ => {
            let mut m = String::from_str("Execution Error: ");
            m.append(head.type_tag().name().as_str());
            m.append(" cannot be cast to clojure.lang.IFn");
            Value::Condition(m)
        },
    }
}

/// Evaluation of a form held in some representation.
pub trait Evaluable {
    /// The form that `self` holds.
    spec fn form(&self) -> Datum;

    /// Evaluates the form in frame `frame`, allowing `MAX_DEPTH` levels of nesting.
    fn eval_to_rc(&self, environment: &mut Environment, frame: usize) -> (r: std::rc::Rc<Value>)
        requires
            old(environment).wf(),
            frame < old(environment)@.len(),
        ensures
            final(environment).wf(),
            final(environment)@.len() >= old(environment)@.len(),
            ((*r)@, final(environment)@) == eval_spec(
                self.form(),
                old(environment)@,
                frame as nat,
                MAX_DEPTH as nat,
            ),
    ;

    /// Evaluates the form in frame `frame`, allowing `MAX_DEPTH` levels of nesting.
    fn eval(&self, environment: &mut Environment, frame: usize) -> (r: Value)
        requires
            old(environment).wf(),
            frame < old(environment)@.len(),
        ensures
            final(environment).wf(),
            final(environment)@.len() >= old(environment)@.len(),
            (r@, final(environment)@) == eval_spec(
                self.form(),
                old(environment)@,
                frame as nat,
                MAX_DEPTH as nat,
            ),
    ;
}

impl Evaluable for Value {
    open spec fn form(&self) -> Datum {
        self@
    }

    fn eval_to_rc(&self, environment: &mut Environment, frame: usize) -> (r: std::rc::Rc<Value>) {
        std::rc::Rc::new(eval_form(self, environment, frame, MAX_DEPTH))
    }

    fn eval(&self, environment: &mut Environment, frame: usize) -> (r: Value) {
        eval_form(self, environment, frame, MAX_DEPTH)
    }
}

impl Evaluable for Vec<Value> {
    /// A sequence of values is evaluated as the list of them.
    open spec fn form(&self) -> Datum {
        Datum::List(values_view(self@))
    }

    fn eval_to_rc(&self, environment: &mut Environment, frame: usize) -> (r: std::rc::Rc<Value>) {
        std::rc::Rc::new(self.eval(environment, frame))
    }

    fn eval(&self, environment: &mut Environment, frame: usize) -> (r: Value) {
        let form = Value::PersistentList(crate::value::duplicate_values(self));
        eval_form(&form, environment, frame, MAX_DEPTH)
    }
}

/// The bindings of the root frame of a standard environment: the special forms,
/// `eval`, `+` and `do`.
pub open spec fn standard_bindings() -> Seq<(Seq<char>, Datum)> {
    seq![
        ("quote"@, Datum::Quote),
        ("def"@, Datum::Def),
        ("defmacro"@, Datum::Defmacro),
        ("fn"@, Datum::FnForm),
        ("let"@, Datum::Let),
        ("eval"@, Datum::LexicalEval),
        ("+"@, Datum::Func(FnModel::Native(NativeFn::Add))),
        ("do"@, Datum::Func(FnModel::Native(NativeFn::Do))),
    ]
}

fn binding(name: &str, val: Value) -> (r: Binding)
    ensures
        r.sym.name@ == name@,
        r.val == val,
{
    Binding { sym: Symbol::intern(name), val }
}

impl Environment {
    /// An environment whose one frame, frame 0, binds the special forms, `eval`,
    /// `+` and `do`.
    pub fn standard() -> (r: Environment)
        ensures
            r.wf(),
            r@ == seq![FrameModel { bindings: standard_bindings(), parent: None }],
    {
        let mut b: Vec<Binding> = Vec::new();
        b.push(binding("quote", Value::QuoteMacro));
        b.push(binding("def", Value::DefMacro));
        b.push(binding("defmacro", Value::DefmacroMacro));
        b.push(binding("fn", Value::FnMacro));
        b.push(binding("let", Value::LetMacro));
        b.push(binding("eval", Value::LexicalEvalFn));
        b.push(binding("+", Value::IFn(Callable::Native(NativeFn::Add))));
        b.push(binding("do", Value::IFn(Callable::Native(NativeFn::Do))));
        let mut frames: Vec<Frame> = Vec::new();
        frames.push(Frame { bindings: b, parent: None });
        let r = Environment { frames };
        proof {
            assert(bindings_view(r.frames@[0].bindings@) =~= standard_bindings());
            assert(r@ =~= seq![FrameModel { bindings: standard_bindings(), parent: None }]);
        }
        r
    }
}

} // verus!
