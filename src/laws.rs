//! Laws that relate the reader, the evaluator and the environment.
use vstd::prelude::*;
use crate::environment::{
    bind_in, bind_spec, child_spec, frame_find, lemma_lookup_after_bind, lookup_spec, FrameModel,
};
use crate::eval::{
    add_spec, apply_spec, bind_params, cond, eval_all, eval_entries, eval_spec, invoke_spec,
    let_bindings, msg_arity,
};
use crate::printer::{render_entries, render_explicit, render_seq};
use crate::reader::{
    assoc_all, digits_value, find_quote, ident_char, ident_start, is_digit, is_ws, read_entries,
    read_items, read_spec, scan_digits, scan_ident, skip_ws,
};
use crate::text::{decimal, digit_char};
use crate::value::{datum_eq, dict_find, lemma_dict_find, Datum};

verus! {

/// Integers, strings and nil evaluate to themselves, in any environment and frame,
/// and leave the environment as it was.
pub proof fn lemma_self_evaluation(d: Datum, env: Seq<FrameModel>, f: nat, fuel: nat)
    requires
        d is Int || d is Str || d is Nil,
    ensures
        eval_spec(d, env, f, fuel) == (d, env),
{
}

/// Where `quote` names the quote form, `(quote x)` evaluates to `x` itself,
/// unevaluated, and leaves the environment as it was.
pub proof fn lemma_quote(d: Datum, env: Seq<FrameModel>, f: nat, fuel: nat)
    requires
        fuel >= 1,
        lookup_spec(env, f as int, "quote"@) == Some(Datum::Quote),
    ensures
        eval_spec(Datum::List(seq![Datum::Sym("quote"@), d]), env, f, fuel) == (d, env),
{
    let s = seq![Datum::Sym("quote"@), d];
    assert(s.drop_first() =~= seq![d]);
    assert(eval_spec(s[0], env, f, (fuel - 1) as nat) == (Datum::Quote, env));
    assert(apply_spec(Datum::Quote, s.drop_first(), env, f, (fuel - 1) as nat) == (d, env));
}

/// Where `quote` names the quote form, `quote` with other than one argument
/// evaluates to a condition and leaves the environment as it was, so that what is
/// evaluated next is unaffected.
pub proof fn lemma_quote_arity(args: Seq<Datum>, env: Seq<FrameModel>, f: nat, fuel: nat)
    requires
        fuel >= 1,
        args.len() != 1,
        lookup_spec(env, f as int, "quote"@) == Some(Datum::Quote),
    ensures
        eval_spec(Datum::List(seq![Datum::Sym("quote"@)] + args), env, f, fuel) == (
            cond(msg_arity(args.len(), "1"@)),
            env,
        ),
{
    let s = seq![Datum::Sym("quote"@)] + args;
    assert(s.drop_first() =~= args);
    assert(s[0] == Datum::Sym("quote"@));
    assert(eval_spec(s[0], env, f, (fuel - 1) as nat) == (Datum::Quote, env));
    assert(apply_spec(Datum::Quote, args, env, f, (fuel - 1) as nat) == (
        cond(msg_arity(args.len(), "1"@)),
        env,
    ));
}

/// Where `def` names the def form, `(def name v)` with an integer, string or nil
/// `v` evaluates to the symbol `name`, and afterwards `name` evaluates to `v` in
/// the same frame.
pub proof fn lemma_def_then_lookup(
    name: Seq<char>,
    v: Datum,
    env: Seq<FrameModel>,
    f: nat,
    fuel: nat,
    later_fuel: nat,
)
    requires
        fuel >= 1,
        f < env.len(),
        lookup_spec(env, f as int, "def"@) == Some(Datum::Def),
        v is Int || v is Str || v is Nil,
    ensures
        ({
            let (r, e1) = eval_spec(
                Datum::List(seq![Datum::Sym("def"@), Datum::Sym(name), v]),
                env,
                f,
                fuel,
            );
            r == Datum::Sym(name) && eval_spec(Datum::Sym(name), e1, f, later_fuel) == (v, e1)
        }),
{
    let s = seq![Datum::Sym("def"@), Datum::Sym(name), v];
    let args = s.drop_first();
    assert(args =~= seq![Datum::Sym(name), v]);
    let k = (fuel - 1) as nat;
    assert(eval_spec(s[0], env, f, k) == (Datum::Def, env));
    assert(eval_spec(args[1], env, f, k) == (v, env));
    let e1 = crate::environment::bind_spec(env, f as int, name, v);
    assert(apply_spec(Datum::Def, args, env, f, k) == (Datum::Sym(name), e1));
    assert(eval_spec(Datum::List(s), env, f, fuel) == (Datum::Sym(name), e1));
    lemma_lookup_after_bind(env, f as int, name, v);
    assert(eval_spec(Datum::Sym(name), e1, f, later_fuel) == (v, e1));
}

/// A name that reads back as a symbol: a character that may start a symbol,
/// then characters that may continue one.
pub open spec fn is_symbol_name(n: Seq<char>) -> bool {
    n.len() > 0 && ident_start(n[0]) && forall|i: int| 1 <= i < n.len() ==> ident_char(#[trigger] n[i])
}

/// A string that reads back from its quoted form: no `"` in it.
pub open spec fn is_plain_text(t: Seq<char>) -> bool {
    forall|i: int| 0 <= i < t.len() ==> #[trigger] t[i] != '"'
}

/// Forms made of non-negative integers, symbols, plain strings and lists,
/// vectors and maps of such forms, with no two keys of a map equal.
pub open spec fn printable(d: Datum) -> bool
    decreases d,
{
    match d {
        Datum::Int(i) => i >= 0,
        Datum::Sym(n) => is_symbol_name(n),
        Datum::Str(t) => is_plain_text(t),
        Datum::List(xs) => all_printable(xs),
        Datum::Vector(xs) => all_printable(xs),
        Datum::Dict(es) => entries_printable(es) && keys_distinct(es),
        _ => false,
    }
}

pub open spec fn all_printable(xs: Seq<Datum>) -> bool
    decreases xs,
{
    xs.len() == 0 || (printable(xs[0]) && all_printable(xs.drop_first()))
}

pub open spec fn entries_printable(es: Seq<(Datum, Datum)>) -> bool
    decreases es,
{
    es.len() == 0 || (printable(es[0].0) && printable(es[0].1) && entries_printable(
        es.drop_first(),
    ))
}

pub open spec fn keys_distinct(es: Seq<(Datum, Datum)>) -> bool {
    forall|i: int, j: int| 0 <= i < j < es.len() ==> !datum_eq(#[trigger] es[i].0, #[trigger] es[j].0)
}

spec fn closer(c: char) -> bool {
    c == ')' || c == ']' || c == '}'
}

spec fn boundary(s: Seq<char>, j: int) -> bool {
    j == s.len() || (0 <= j < s.len() && (s[j] == ' ' || closer(s[j])))
}

spec fn is_coll(d: Datum) -> bool {
    d is List || d is Vector || d is Dict
}

spec fn read_end(d: Datum, s: Seq<char>, j: int) -> int {
    if is_coll(d) {
        skip_ws(s, j)
    } else {
        j
    }
}

spec fn occurs_at(s: Seq<char>, p: int, r: Seq<char>) -> bool {
    0 <= p && p + r.len() <= s.len() && s.subrange(p, p + r.len()) == r
}

spec fn seq_front(xs: Seq<Datum>) -> Seq<char>
    decreases xs.len(),
{
    if xs.len() == 0 {
        Seq::empty()
    } else if xs.len() == 1 {
        render_explicit(xs[0])
    } else {
        render_explicit(xs[0]) + " "@ + seq_front(xs.drop_first())
    }
}

spec fn entries_front(es: Seq<(Datum, Datum)>) -> Seq<char>
    decreases es.len(),
{
    if es.len() == 0 {
        Seq::empty()
    } else if es.len() == 1 {
        render_explicit(es[0].0) + " "@ + render_explicit(es[0].1)
    } else {
        render_explicit(es[0].0) + " "@ + render_explicit(es[0].1) + " "@ + entries_front(
            es.drop_first(),
        )
    }
}

proof fn lemma_seq_front_back(xs: Seq<Datum>)
    requires
        xs.len() >= 2,
    ensures
        seq_front(xs) == seq_front(xs.drop_last()) + " "@ + render_explicit(xs.last()),
    decreases xs.len(),
{
    if xs.len() == 2 {
        assert(xs.drop_first().len() == 1);
        assert(xs.drop_last().len() == 1);
        assert(xs.drop_first()[0] == xs[1]);
        assert(xs.drop_last()[0] == xs[0]);
        assert(seq_front(xs.drop_first()) == render_explicit(xs[1]));
        assert(seq_front(xs.drop_last()) == render_explicit(xs[0]));
        assert(seq_front(xs) =~= seq_front(xs.drop_last()) + " "@ + render_explicit(xs.last()));
    } else {
        lemma_seq_front_back(xs.drop_first());
        assert(xs.drop_last().drop_first() =~= xs.drop_first().drop_last());
        assert(xs.drop_first().last() == xs.last());
        assert(xs.drop_last()[0] == xs[0]);
        assert(seq_front(xs) =~= seq_front(xs.drop_last()) + " "@ + render_explicit(xs.last()));
    }
}

proof fn lemma_seq_front(xs: Seq<Datum>)
    ensures
        render_seq(xs) == seq_front(xs),
    decreases xs.len(),
{
    if xs.len() >= 2 {
        lemma_seq_front(xs.drop_last());
        lemma_seq_front_back(xs);
    }
}

proof fn lemma_entries_front_back(es: Seq<(Datum, Datum)>)
    requires
        es.len() >= 2,
    ensures
        entries_front(es) == entries_front(es.drop_last()) + " "@ + render_explicit(es.last().0)
            + " "@ + render_explicit(es.last().1),
    decreases es.len(),
{
    if es.len() == 2 {
        assert(es.drop_first().len() == 1);
        assert(es.drop_last().len() == 1);
        assert(es.drop_first()[0] == es[1]);
        assert(es.drop_last()[0] == es[0]);
        assert(entries_front(es.drop_first()) == render_explicit(es[1].0) + " "@ + render_explicit(
            es[1].1,
        ));
        assert(entries_front(es.drop_last()) == render_explicit(es[0].0) + " "@ + render_explicit(
            es[0].1,
        ));
        assert(entries_front(es) =~= entries_front(es.drop_last()) + " "@ + render_explicit(
            es.last().0,
        ) + " "@ + render_explicit(es.last().1));
    } else {
        lemma_entries_front_back(es.drop_first());
        assert(es.drop_last().drop_first() =~= es.drop_first().drop_last());
        assert(es.drop_first().last() == es.last());
        assert(es.drop_last()[0] == es[0]);
        assert(entries_front(es) =~= entries_front(es.drop_last()) + " "@ + render_explicit(
            es.last().0,
        ) + " "@ + render_explicit(es.last().1));
    }
}

proof fn lemma_entries_front(es: Seq<(Datum, Datum)>)
    ensures
        render_entries(es) == entries_front(es),
    decreases es.len(),
{
    if es.len() >= 2 {
        lemma_entries_front(es.drop_last());
        lemma_entries_front_back(es);
    }
}

proof fn lemma_digit_char(d: nat)
    requires
        d < 10,
    ensures
        is_digit(digit_char(d)),
        digit_char(d) as u32 - '0' as u32 == d,
{
}

proof fn lemma_decimal_digits(n: nat)
    ensures
        decimal(n).len() > 0,
        forall|i: int| 0 <= i < decimal(n).len() ==> is_digit(#[trigger] decimal(n)[i]),
        digits_value(decimal(n)) == n,
    decreases n,
{
    lemma_digit_char(n % 10);
    if n >= 10 {
        lemma_decimal_digits(n / 10);
        assert(decimal(n).drop_last() =~= decimal(n / 10));
        assert(decimal(n).last() == digit_char(n % 10));
        assert((n / 10) * 10 + n % 10 == n) by (nonlinear_arith);
        assert(digits_value(decimal(n)) == digits_value(decimal(n / 10)) * 10 + (digit_char(n % 10) as u32
            - '0' as u32));
    } else {
        assert(decimal(n).drop_last() =~= Seq::<char>::empty());
        assert(decimal(n).last() == digit_char(n));
        assert(n % 10 == n);
        assert(digits_value(decimal(n)) == digits_value(Seq::<char>::empty()) * 10 + (digit_char(n) as u32
            - '0' as u32));
    }
}

proof fn lemma_scan_digits(s: Seq<char>, j: int, k: int)
    requires
        0 <= j <= k <= s.len(),
        forall|i: int| j <= i < k ==> is_digit(#[trigger] s[i]),
        k == s.len() || !is_digit(s[k]),
    ensures
        scan_digits(s, j) == k,
    decreases k - j,
{
    if j < k {
        lemma_scan_digits(s, j + 1, k);
    }
}

proof fn lemma_scan_ident(s: Seq<char>, j: int, k: int)
    requires
        0 <= j <= k <= s.len(),
        forall|i: int| j <= i < k ==> ident_char(#[trigger] s[i]),
        k == s.len() || !ident_char(s[k]),
    ensures
        scan_ident(s, j) == k,
    decreases k - j,
{
    if j < k {
        lemma_scan_ident(s, j + 1, k);
    }
}

proof fn lemma_find_quote(s: Seq<char>, j: int, k: int)
    requires
        0 <= j <= k < s.len(),
        forall|i: int| j <= i < k ==> #[trigger] s[i] != '"',
        s[k] == '"',
    ensures
        find_quote(s, j) == Some(k),
    decreases k - j,
{
    if j < k {
        lemma_find_quote(s, j + 1, k);
    }
}

proof fn lemma_skip_ws_bounds(s: Seq<char>, j: int)
    requires
        0 <= j <= s.len(),
    ensures
        j <= skip_ws(s, j) <= s.len(),
    decreases s.len() - j,
{
    if j < s.len() && is_ws(s[j]) {
        lemma_skip_ws_bounds(s, j + 1);
    }
}

proof fn lemma_read_items_ws(s: Seq<char>, j: int, close: char)
    requires
        0 <= j <= s.len(),
    ensures
        read_items(s, j, close) == read_items(s, skip_ws(s, j), close),
    decreases s.len() - j,
{
    if j < s.len() && is_ws(s[j]) {
        lemma_read_items_ws(s, j + 1, close);
    }
}

proof fn lemma_read_entries_ws(s: Seq<char>, j: int)
    requires
        0 <= j <= s.len(),
    ensures
        read_entries(s, j) == read_entries(s, skip_ws(s, j)),
    decreases s.len() - j,
{
    if j < s.len() && is_ws(s[j]) {
        lemma_read_entries_ws(s, j + 1);
    }
}

/// The printed form of a printable form starts with a character that is neither
/// whitespace nor a closing delimiter.
proof fn lemma_first_char(d: Datum)
    requires
        printable(d),
    ensures
        render_explicit(d).len() > 0,
        !is_ws(render_explicit(d)[0]),
        !closer(render_explicit(d)[0]),
{
    reveal_strlit("(");
    reveal_strlit("[");
    reveal_strlit("{");
    reveal_strlit("\"");
    match d {
        Datum::Int(i) => {
            lemma_decimal_digits(i as nat);
            assert(render_explicit(d) == decimal(i as nat));
        },
        Datum::List(xs) => {
            assert(render_explicit(d) == "("@ + render_seq(xs) + ")"@);
        },
        Datum::Vector(xs) => {
            assert(render_explicit(d) == "["@ + render_seq(xs) + "]"@);
        },
        Datum::Dict(es) => {
            assert(render_explicit(d) == "{"@ + render_entries(es) + "}"@);
        },
        Datum::Str(t) => {
            assert(render_explicit(d) == "\""@ + t + "\""@);
        },
        _ => {},
    }
}

proof fn lemma_assoc_all_distinct(es: Seq<(Datum, Datum)>)
    requires
        keys_distinct(es),
    ensures
        assoc_all(es) == es,
    decreases es.len(),
{
    if es.len() > 0 {
        let t = es.drop_last();
        assert(keys_distinct(t)) by {
            assert forall|i: int, j: int| 0 <= i < j < t.len() implies !datum_eq(
                #[trigger] t[i].0,
                #[trigger] t[j].0,
            ) by {
                assert(t[i] == es[i] && t[j] == es[j]);
            }
        }
        lemma_assoc_all_distinct(t);
        lemma_dict_find(t, es.last().0);
        match dict_find(t, es.last().0) {
            Some(k) => {
                assert(t[k] == es[k]);
                assert(!datum_eq(es[k].0, es[es.len() - 1].0));
            },
            None => {},
        }
        assert(t.push(es.last()) =~= es);
    }
}

proof fn lemma_occurs_split(s: Seq<char>, q: int, a: Seq<char>, b: Seq<char>)
    requires
        occurs_at(s, q, a + b),
    ensures
        occurs_at(s, q, a),
        occurs_at(s, q + a.len(), b),
{
    assert(s.subrange(q, q + a.len()) =~= (a + b).subrange(0, a.len() as int));
    assert((a + b).subrange(0, a.len() as int) =~= a);
    assert(s.subrange(q + a.len(), q + a.len() + b.len()) =~= (a + b).subrange(
        a.len() as int,
        (a + b).len() as int,
    ));
    assert((a + b).subrange(a.len() as int, (a + b).len() as int) =~= b);
}

proof fn lemma_occurs_index(s: Seq<char>, q: int, a: Seq<char>, i: int)
    requires
        occurs_at(s, q, a),
        0 <= i < a.len(),
    ensures
        s[q + i] == a[i],
{
    assert(s.subrange(q, q + a.len())[i] == s[q + i]);
}

/// A printable form, printed at `p` of `s` and followed by a space, a closing
/// delimiter or the end, reads back as itself.
proof fn lemma_read_printable(d: Datum, s: Seq<char>, p: int)
    requires
        printable(d),
        occurs_at(s, p, render_explicit(d)),
        boundary(s, p + render_explicit(d).len()),
    ensures
        read_spec(s, p) == Some((read_end(d, s, p + render_explicit(d).len()), d)),
    decreases d,
{
    let r = render_explicit(d);
    let n = r.len() as int;
    lemma_first_char(d);
    lemma_occurs_index(s, p, r, 0);
    reveal_strlit("(");
    reveal_strlit(")");
    reveal_strlit("[");
    reveal_strlit("]");
    reveal_strlit("{");
    reveal_strlit("}");
    reveal_strlit("\"");
    match d {
        Datum::Int(i) => {
            assert(r == decimal(i as nat));
            lemma_decimal_digits(i as nat);
            assert forall|k: int| p + 1 <= k < p + n implies is_digit(#[trigger] s[k]) by {
                lemma_occurs_index(s, p, r, k - p);
            }
            lemma_scan_digits(s, p + 1, p + n);
            assert(s.subrange(p, p + n) == r);
        },
        Datum::Sym(nm) => {
            assert forall|k: int| p + 1 <= k < p + n implies ident_char(#[trigger] s[k]) by {
                lemma_occurs_index(s, p, r, k - p);
            }
            lemma_scan_ident(s, p + 1, p + n);
        },
        Datum::Str(t) => {
            assert(r == "\""@ + t + "\""@);
            lemma_occurs_split(s, p, "\""@ + t, "\""@);
            lemma_occurs_split(s, p, "\""@, t);
            lemma_occurs_index(s, p + n - 1, "\""@, 0);
            assert forall|k: int| p + 1 <= k < p + 1 + t.len() implies #[trigger] s[k] != '"' by {
                lemma_occurs_index(s, p + 1, t, k - p - 1);
            }
            lemma_find_quote(s, p + 1, p + 1 + t.len());
        },
        Datum::List(xs) => {
            lemma_seq_front(xs);
            let body = seq_front(xs);
            assert(r == "("@ + body + ")"@);
            lemma_occurs_split(s, p, "("@ + body, ")"@);
            lemma_occurs_split(s, p, "("@, body);
            lemma_occurs_index(s, p + 1 + body.len(), ")"@, 0);
            lemma_read_items(xs, s, p + 1, ')');
        },
        Datum::Vector(xs) => {
            lemma_seq_front(xs);
            let body = seq_front(xs);
            assert(r == "["@ + body + "]"@);
            lemma_occurs_split(s, p, "["@ + body, "]"@);
            lemma_occurs_split(s, p, "["@, body);
            lemma_occurs_index(s, p + 1 + body.len(), "]"@, 0);
            lemma_read_items(xs, s, p + 1, ']');
        },
        Datum::Dict(es) => {
            lemma_entries_front(es);
            let body = entries_front(es);
            assert(r == "{"@ + body + "}"@);
            lemma_occurs_split(s, p, "{"@ + body, "}"@);
            lemma_occurs_split(s, p, "{"@, body);
            lemma_occurs_index(s, p + 1 + body.len(), "}"@, 0);
            lemma_read_entries_printable(es, s, p + 1);
            lemma_assoc_all_distinct(es);
        },
        _ => {},
    }
}

proof fn lemma_read_items(xs: Seq<Datum>, s: Seq<char>, q: int, close: char)
    requires
        all_printable(xs),
        closer(close),
        occurs_at(s, q, seq_front(xs)),
        q + seq_front(xs).len() < s.len(),
        s[q + seq_front(xs).len()] == close,
    ensures
        read_items(s, q, close) == Some((skip_ws(s, q + seq_front(xs).len() + 1), xs)),
    decreases xs,
{
    reveal_strlit(" ");
    let big = seq_front(xs);
    if xs.len() == 0 {
        assert(xs =~= Seq::<Datum>::empty());
    } else {
        let x0 = xs[0];
        let r0 = render_explicit(x0);
        let rest = xs.drop_first();
        lemma_first_char(x0);
        let j = q + r0.len();
        if xs.len() == 1 {
            assert(big == r0);
            lemma_occurs_index(s, q, r0, 0);
            lemma_read_printable(x0, s, q);
            assert(skip_ws(s, j) == j);
            assert(seq![x0] + Seq::<Datum>::empty() =~= xs);
        } else {
            let tail = seq_front(rest);
            assert(big == r0 + " "@ + tail);
            lemma_occurs_split(s, q, r0 + " "@, tail);
            lemma_occurs_split(s, q, r0, " "@);
            lemma_occurs_index(s, q, r0, 0);
            lemma_occurs_index(s, j, " "@, 0);
            lemma_read_printable(x0, s, q);
            lemma_skip_ws_bounds(s, j);
            lemma_read_items_ws(s, j, close);
            lemma_read_items(rest, s, j + 1, close);
            assert(seq![x0] + rest =~= xs);
        }
    }
}

proof fn lemma_read_entries_printable(es: Seq<(Datum, Datum)>, s: Seq<char>, q: int)
    requires
        entries_printable(es),
        occurs_at(s, q, entries_front(es)),
        q + entries_front(es).len() < s.len(),
        s[q + entries_front(es).len()] == '}',
    ensures
        read_entries(s, q) == Some((skip_ws(s, q + entries_front(es).len() + 1), es)),
    decreases es,
{
    reveal_strlit(" ");
    let big = entries_front(es);
    if es.len() == 0 {
        assert(es =~= Seq::<(Datum, Datum)>::empty());
    } else {
        let k0 = es[0].0;
        let v0 = es[0].1;
        assert(decreases_to!(es => es[0]));
        let rk = render_explicit(k0);
        let rv = render_explicit(v0);
        let rest = es.drop_first();
        lemma_first_char(k0);
        lemma_first_char(v0);
        let j = q + rk.len();
        let m = j + 1 + rv.len();
        let pair = rk + " "@ + rv;
        if es.len() == 1 {
            assert(big == pair);
        } else {
            assert(big == pair + " "@ + entries_front(rest));
            lemma_occurs_split(s, q, pair + " "@, entries_front(rest));
            lemma_occurs_split(s, q, pair, " "@);
        }
        assert(occurs_at(s, q, pair));
        lemma_occurs_split(s, q, rk + " "@, rv);
        lemma_occurs_split(s, q, rk, " "@);
        lemma_occurs_index(s, q, rk, 0);
        lemma_occurs_index(s, j, " "@, 0);
        lemma_occurs_index(s, j + 1, rv, 0);
        lemma_read_printable(k0, s, q);
        assert(skip_ws(s, j + 1) == j + 1);
        assert(skip_ws(s, j) == j + 1);
        assert(read_spec(s, j) == read_spec(s, j + 1));
        if es.len() == 1 {
            lemma_read_printable(v0, s, j + 1);
            assert(skip_ws(s, m) == m);
            assert(seq![(k0, v0)] + Seq::<(Datum, Datum)>::empty() =~= es);
        } else {
            lemma_occurs_index(s, m, " "@, 0);
            lemma_read_printable(v0, s, j + 1);
            lemma_skip_ws_bounds(s, m);
            lemma_read_entries_ws(s, m);
            lemma_read_entries_printable(rest, s, m + 1);
            assert(seq![(k0, v0)] + rest =~= es);
        }
    }
}

/// Reading the printed form of a printable form gives the form back, having
/// read all of the text.
pub proof fn lemma_round_trip(d: Datum)
    requires
        printable(d),
    ensures
        read_spec(render_explicit(d), 0) == Some((render_explicit(d).len() as int, d)),
{
    let r = render_explicit(d);
    assert(r.subrange(0, r.len() as int) =~= r);
    lemma_read_printable(d, r, 0);
}

/// `e1` has every frame of `e0` but frame `c` as it was, and perhaps more frames.
pub open spec fn keeps(e0: Seq<FrameModel>, e1: Seq<FrameModel>, c: int) -> bool {
    e1.len() >= e0.len() && forall|i: int| 0 <= i < e0.len() && i != c ==> #[trigger] e1[i] == e0[i]
}

proof fn lemma_bind_params_keeps(
    params: Seq<Seq<char>>,
    vals: Seq<Datum>,
    env: Seq<FrameModel>,
    c: nat,
    n: nat,
)
    ensures
        keeps(env, bind_params(params, vals, env, c, n), c as int),
    decreases n,
{
    if n > 0 {
        lemma_bind_params_keeps(params, vals, env, c, (n - 1) as nat);
    }
}

/// Evaluation in frame `f` changes no frame that existed before but `f`.
pub proof fn lemma_eval_keeps(d: Datum, env: Seq<FrameModel>, f: nat, fuel: nat)
    ensures
        keeps(env, eval_spec(d, env, f, fuel).1, f as int),
    decreases fuel, 0nat, 0nat,
{
    match d {
        Datum::List(s) => {
            if s.len() > 0 && fuel > 0 {
                let k = (fuel - 1) as nat;
                lemma_eval_keeps(s[0], env, f, k);
                let (h, e1) = eval_spec(s[0], env, f, k);
                lemma_apply_keeps(h, s.drop_first(), e1, f, k);
            }
        },
        Datum::Vector(s) => {
            if fuel > 0 {
                lemma_eval_all_keeps(s, env, f, (fuel - 1) as nat);
            }
        },
        Datum::Dict(s) => {
            if fuel > 0 {
                lemma_eval_entries_keeps(s, env, f, (fuel - 1) as nat);
            }
        },
        _ => {},
    }
}

proof fn lemma_eval_all_keeps(s: Seq<Datum>, env: Seq<FrameModel>, f: nat, fuel: nat)
    ensures
        keeps(env, eval_all(s, env, f, fuel).1, f as int),
    decreases fuel, 1nat, s.len(),
{
    if s.len() > 0 {
        lemma_eval_all_keeps(s.drop_last(), env, f, fuel);
        let (r, e1) = eval_all(s.drop_last(), env, f, fuel);
        lemma_eval_keeps(s.last(), e1, f, fuel);
    }
}

proof fn lemma_eval_entries_keeps(s: Seq<(Datum, Datum)>, env: Seq<FrameModel>, f: nat, fuel: nat)
    ensures
        keeps(env, eval_entries(s, env, f, fuel).1, f as int),
    decreases fuel, 1nat, s.len(),
{
    if s.len() > 0 {
        lemma_eval_entries_keeps(s.drop_last(), env, f, fuel);
        let (r, e1) = eval_entries(s.drop_last(), env, f, fuel);
        lemma_eval_keeps(s.last().0, e1, f, fuel);
        let (k, e2) = eval_spec(s.last().0, e1, f, fuel);
        lemma_eval_keeps(s.last().1, e2, f, fuel);
    }
}

proof fn lemma_let_bindings_keeps(bs: Seq<Datum>, n: nat, env: Seq<FrameModel>, c: nat, fuel: nat)
    ensures
        keeps(env, let_bindings(bs, n, env, c, fuel), c as int),
    decreases fuel, 1nat, n,
{
    if n > 0 {
        lemma_let_bindings_keeps(bs, (n - 1) as nat, env, c, fuel);
        let e1 = let_bindings(bs, (n - 1) as nat, env, c, fuel);
        lemma_eval_keeps(bs[2 * (n - 1) + 1], e1, c, fuel);
    }
}

/// Invoking a callable changes no frame that existed before.
proof fn lemma_invoke_keeps(cm: crate::value::FnModel, vals: Seq<Datum>, env: Seq<FrameModel>, fuel: nat)
    ensures
        keeps(env, invoke_spec(cm, vals, env, fuel).1, -1),
    decreases fuel, 1nat, 0nat,
{
    match cm {
        crate::value::FnModel::Lambda { env: ce, params, body } => {
            if ce < env.len() && params.len() == vals.len() {
                let c = env.len();
                let e0 = child_spec(env, ce as int);
                lemma_bind_params_keeps(params, vals, e0, c, params.len());
                let e1 = bind_params(params, vals, e0, c, params.len());
                lemma_eval_keeps(*body, e1, c, fuel);
            }
        },
        _ => {},
    }
}

proof fn lemma_apply_keeps(h: Datum, args: Seq<Datum>, env: Seq<FrameModel>, f: nat, fuel: nat)
    ensures
        keeps(env, apply_spec(h, args, env, f, fuel).1, f as int),
    decreases fuel, 2nat, 0nat,
{
    match h {
        Datum::Func(c) => {
            lemma_eval_all_keeps(args, env, f, fuel);
            let (vals, e1) = eval_all(args, env, f, fuel);
            lemma_invoke_keeps(c, vals, e1, fuel);
        },
        Datum::LexicalEval => {
            if args.len() == 1 {
                lemma_eval_keeps(args[0], env, f, fuel);
                let (x, e1) = eval_spec(args[0], env, f, fuel);
                lemma_eval_keeps(x, e1, f, fuel);
            }
        },
        Datum::Macro(c) => {
            lemma_invoke_keeps(c, args, env, fuel);
            let (x, e1) = invoke_spec(c, args, env, fuel);
            lemma_eval_keeps(x, e1, f, fuel);
        },
        Datum::Def => {
            if args.len() == 2 {
                lemma_eval_keeps(args[1], env, f, fuel);
            }
        },
        Datum::Defmacro => {
            if args.len() >= 2 {
                let fn_form = Datum::List(seq![Datum::Sym("fn"@)] + args.drop_first());
                lemma_eval_keeps(fn_form, env, f, fuel);
                let (fv, e1) = eval_spec(fn_form, env, f, fuel);
                let mv = match fv {
                    Datum::Func(c) => Datum::Macro(c),
                    _ => cond(crate::eval::msg_macro_not_fn()),
                };
                lemma_eval_keeps(Datum::List(seq![Datum::Sym("def"@), args[0], mv]), e1, f, fuel);
            }
        },
        Datum::Let => {
            if 1 <= args.len() <= 2 {
                match args[0] {
                    Datum::Vector(bs) => {
                        if bs.len() % 2 == 0 {
                            let c = env.len();
                            let e0 = child_spec(env, f as int);
                            lemma_let_bindings_keeps(bs, bs.len() / 2, e0, c, fuel);
                            let e1 = let_bindings(bs, bs.len() / 2, e0, c, fuel);
                            if args.len() == 2 {
                                lemma_eval_keeps(args[1], e1, c, fuel);
                            }
                        }
                    },
                    _ => {},
                }
            }
        },
        _ => {},
    }
}

proof fn lemma_lookup_kept(env: Seq<FrameModel>, e1: Seq<FrameModel>, f: int, name: Seq<char>)
    requires
        0 <= f < env.len(),
        e1.len() >= env.len(),
        forall|i: int| 0 <= i < env.len() ==> #[trigger] e1[i] == env[i],
    ensures
        lookup_spec(e1, f, name) == lookup_spec(env, f, name),
    decreases f,
{
    match env[f].parent {
        Some(p) => {
            if p < f {
                lemma_lookup_kept(env, e1, p as int, name);
            }
        },
        None => {},
    }
}

/// A `let` form leaves every frame that existed before as it was: its bindings
/// live in a new frame, so after it every name means in frame `f` what it meant
/// before.
pub proof fn lemma_let_scoping(args: Seq<Datum>, env: Seq<FrameModel>, f: nat, fuel: nat, name: Seq<char>)
    requires
        f < env.len(),
        lookup_spec(env, f as int, "let"@) == Some(Datum::Let),
    ensures
        ({
            let e1 = eval_spec(Datum::List(seq![Datum::Sym("let"@)] + args), env, f, fuel).1;
            &&& forall|i: int| 0 <= i < env.len() ==> #[trigger] e1[i] == env[i]
            &&& lookup_spec(e1, f as int, name) == lookup_spec(env, f as int, name)
        }),
{
    let s = seq![Datum::Sym("let"@)] + args;
    let e1 = eval_spec(Datum::List(s), env, f, fuel).1;
    if fuel > 0 {
        let k = (fuel - 1) as nat;
        assert(s[0] == Datum::Sym("let"@));
        assert(s.drop_first() =~= args);
        assert(eval_spec(s[0], env, f, k) == (Datum::Let, env));
        lemma_apply_keeps(Datum::Let, args, env, f, k);
        assert(e1 == apply_spec(Datum::Let, args, env, f, k).1);
        if 1 <= args.len() <= 2 && args[0] is Vector && (args[0]->Vector_0).len() % 2 == 0 {
            let bs = args[0]->Vector_0;
            let c = env.len();
            let e0 = child_spec(env, f as int);
            lemma_let_bindings_keeps(bs, bs.len() / 2, e0, c, k);
            let e2 = let_bindings(bs, bs.len() / 2, e0, c, k);
            if args.len() == 2 {
                lemma_eval_keeps(args[1], e2, c, k);
            }
            assert(forall|i: int| 0 <= i < env.len() ==> #[trigger] e1[i] == env[i]);
        }
    }
    lemma_lookup_kept(env, e1, f as int, name);
}

proof fn lemma_scan_ident_run(s: Seq<char>, j: int)
    requires
        0 <= j <= s.len(),
    ensures
        j <= scan_ident(s, j) <= s.len(),
        forall|i: int| j <= i < scan_ident(s, j) ==> ident_char(#[trigger] s[i]),
    decreases s.len() - j,
{
    if j < s.len() && ident_char(s[j]) {
        lemma_scan_ident_run(s, j + 1);
    }
}

proof fn lemma_scan_digits_run(s: Seq<char>, j: int)
    requires
        0 <= j <= s.len(),
    ensures
        j <= scan_digits(s, j) <= s.len(),
        forall|i: int| j <= i < scan_digits(s, j) ==> is_digit(#[trigger] s[i]),
    decreases s.len() - j,
{
    if j < s.len() && is_digit(s[j]) {
        lemma_scan_digits_run(s, j + 1);
    }
}

proof fn lemma_find_quote_run(s: Seq<char>, j: int)
    requires
        0 <= j,
    ensures
        match find_quote(s, j) {
            Some(e) => j <= e < s.len() && forall|i: int| j <= i < e ==> #[trigger] s[i] != '"',
            None => true,
        },
    decreases s.len() - j,
{
    if 0 <= j < s.len() && s[j] != '"' {
        lemma_find_quote_run(s, j + 1);
    }
}

proof fn lemma_digits_value_nonneg(d: Seq<char>)
    requires
        forall|i: int| 0 <= i < d.len() ==> is_digit(#[trigger] d[i]),
    ensures
        digits_value(d) >= 0,
    decreases d.len(),
{
    if d.len() > 0 {
        lemma_digits_value_nonneg(d.drop_last());
    }
}

proof fn lemma_entries_printable_elim(es: Seq<(Datum, Datum)>)
    requires
        entries_printable(es),
    ensures
        forall|i: int| 0 <= i < es.len() ==> printable((#[trigger] es[i]).0) && printable(es[i].1),
    decreases es.len(),
{
    if es.len() > 0 {
        let t = es.drop_first();
        assert(entries_printable(t));
        lemma_entries_printable_elim(t);
        assert forall|i: int| 0 <= i < es.len() implies printable((#[trigger] es[i]).0) && printable(
            es[i].1,
        ) by {
            if i > 0 {
                assert(t[i - 1] == es[i]);
            }
        }
    }
}

proof fn lemma_entries_printable_intro(es: Seq<(Datum, Datum)>)
    requires
        forall|i: int| 0 <= i < es.len() ==> printable((#[trigger] es[i]).0) && printable(es[i].1),
    ensures
        entries_printable(es),
    decreases es.len(),
{
    if es.len() > 0 {
        let t = es.drop_first();
        assert forall|i: int| 0 <= i < t.len() implies printable((#[trigger] t[i]).0) && printable(
            t[i].1,
        ) by {
            assert(t[i] == es[i + 1]);
        }
        lemma_entries_printable_intro(t);
        assert(printable(es[0].0) && printable(es[0].1));
    }
}

/// The map that entries make is printable when the entries are.
proof fn lemma_assoc_all_printable(pairs: Seq<(Datum, Datum)>)
    requires
        forall|i: int| 0 <= i < pairs.len() ==> printable((#[trigger] pairs[i]).0) && printable(pairs[i].1),
    ensures
        keys_distinct(assoc_all(pairs)),
        forall|i: int|
            0 <= i < assoc_all(pairs).len() ==> printable((#[trigger] assoc_all(pairs)[i]).0) && printable(
                assoc_all(pairs)[i].1,
            ),
    decreases pairs.len(),
{
    if pairs.len() > 0 {
        let t = pairs.drop_last();
        assert forall|i: int| 0 <= i < t.len() implies printable((#[trigger] t[i]).0) && printable(t[i].1) by {
            assert(t[i] == pairs[i]);
        }
        lemma_assoc_all_printable(t);
        let a = assoc_all(t);
        let (k, v) = pairs.last();
        assert(printable(pairs[pairs.len() - 1].0) && printable(pairs[pairs.len() - 1].1));
        lemma_dict_find(a, k);
        let r = crate::value::dict_assoc(a, k, v);
        assert(assoc_all(pairs) == r);
        match dict_find(a, k) {
            Some(j) => {
                assert forall|x: int, y: int| 0 <= x < y < r.len() implies !datum_eq(
                    #[trigger] r[x].0,
                    #[trigger] r[y].0,
                ) by {
                    assert(r[x].0 == a[x].0 && r[y].0 == a[y].0);
                }
                assert forall|i: int| 0 <= i < r.len() implies printable((#[trigger] r[i]).0) && printable(
                    r[i].1,
                ) by {
                    assert(r[i].0 == a[i].0);
                }
            },
            None => {
                assert forall|x: int, y: int| 0 <= x < y < r.len() implies !datum_eq(
                    #[trigger] r[x].0,
                    #[trigger] r[y].0,
                ) by {
                    assert(r[x] == a[x]);
                    if y < a.len() {
                        assert(r[y] == a[y]);
                    }
                }
                assert forall|i: int| 0 <= i < r.len() implies printable((#[trigger] r[i]).0) && printable(
                    r[i].1,
                ) by {
                    if i < a.len() {
                        assert(r[i] == a[i]);
                    }
                }
            },
        }
    }
}

/// Every form that the reader reads is printable.
proof fn lemma_read_is_printable(s: Seq<char>, p: int)
    ensures
        match read_spec(s, p) {
            Some((e, d)) => printable(d),
            None => true,
        },
    decreases s.len() - p, 0int,
{
    if 0 <= p < s.len() {
        if is_ws(s[p]) {
            lemma_read_is_printable(s, p + 1);
        } else if s[p] == '{' {
            lemma_read_entries_printable_result(s, p + 1);
            match read_entries(s, p + 1) {
                Some((e, pairs)) => {
                    lemma_entries_printable_elim(pairs);
                    lemma_assoc_all_printable(pairs);
                    lemma_entries_printable_intro(assoc_all(pairs));
                },
                None => {},
            }
        } else if s[p] == '"' {
            lemma_find_quote_run(s, p + 1);
            match find_quote(s, p + 1) {
                Some(e) => {
                    let t = s.subrange(p + 1, e);
                    assert forall|i: int| 0 <= i < t.len() implies #[trigger] t[i] != '"' by {
                        assert(t[i] == s[p + 1 + i]);
                    }
                },
                None => {},
            }
        } else if ident_start(s[p]) {
            lemma_scan_ident_run(s, p + 1);
            let e = scan_ident(s, p + 1);
            let n = s.subrange(p, e);
            assert forall|i: int| 1 <= i < n.len() implies ident_char(#[trigger] n[i]) by {
                assert(n[i] == s[p + i]);
            }
        } else if is_digit(s[p]) {
            lemma_scan_digits_run(s, p + 1);
            let e = scan_digits(s, p + 1);
            let d = s.subrange(p, e);
            assert forall|i: int| 0 <= i < d.len() implies is_digit(#[trigger] d[i]) by {
                assert(d[i] == s[p + i]);
            }
            lemma_digits_value_nonneg(d);
        } else if s[p] == '(' {
            lemma_read_items_printable(s, p + 1, ')');
        } else if s[p] == '[' {
            lemma_read_items_printable(s, p + 1, ']');
        }
    }
}

proof fn lemma_read_items_printable(s: Seq<char>, p: int, close: char)
    ensures
        match read_items(s, p, close) {
            Some((e, xs)) => all_printable(xs),
            None => true,
        },
    decreases s.len() - p, 1int,
{
    if 0 <= p < s.len() {
        if is_ws(s[p]) {
            lemma_read_items_printable(s, p + 1, close);
        } else if s[p] == close {
        } else {
            lemma_read_is_printable(s, p);
            match read_spec(s, p) {
                Some((p2, x)) => {
                    if p < p2 <= s.len() {
                        lemma_read_items_printable(s, p2, close);
                        match read_items(s, p2, close) {
                            Some((e, xs)) => {
                                let ys = seq![x] + xs;
                                assert(ys[0] == x);
                                assert(ys.drop_first() =~= xs);
                            },
                            None => {},
                        }
                    }
                },
                None => {},
            }
        }
    }
}

proof fn lemma_read_entries_printable_result(s: Seq<char>, p: int)
    ensures
        match read_entries(s, p) {
            Some((e, es)) => entries_printable(es),
            None => true,
        },
    decreases s.len() - p, 1int,
{
    if 0 <= p < s.len() {
        if is_ws(s[p]) {
            lemma_read_entries_printable_result(s, p + 1);
        } else if s[p] == '}' {
        } else {
            lemma_read_is_printable(s, p);
            match read_spec(s, p) {
                Some((p2, k)) => {
                    if p < p2 <= s.len() {
                        lemma_read_is_printable(s, p2);
                        match read_spec(s, p2) {
                            Some((p3, v)) => {
                                if p2 < p3 <= s.len() {
                                    lemma_read_entries_printable_result(s, p3);
                                    match read_entries(s, p3) {
                                        Some((e, es)) => {
                                            let ys = seq![(k, v)] + es;
                                            assert(ys[0] == (k, v));
                                            assert(ys.drop_first() =~= es);
                                        },
                                        None => {},
                                    }
                                }
                            },
                            None => {},
                        }
                    }
                },
                None => {},
            }
        }
    }
}

/// What the reader reads from any text, printed and read again, gives the same
/// form, and the second read takes all of the printed text.
pub proof fn lemma_read_print_read(s: Seq<char>)
    ensures
        match read_spec(s, 0) {
            Some((e, d)) => read_spec(render_explicit(d), 0) == Some(
                (render_explicit(d).len() as int, d),
            ),
            None => true,
        },
{
    lemma_read_is_printable(s, 0);
    match read_spec(s, 0) {
        Some((e, d)) => lemma_round_trip(d),
        None => {},
    }
}

/// In `(let [a v b a] b)`, with `v` an integer, string or nil, the expression
/// for `b` sees the earlier binding of `a`, so the form evaluates to `v`.
pub proof fn lemma_let_sees_earlier(
    a: Seq<char>,
    b: Seq<char>,
    v: Datum,
    env: Seq<FrameModel>,
    f: nat,
    fuel: nat,
)
    requires
        fuel >= 1,
        f < env.len(),
        lookup_spec(env, f as int, "let"@) == Some(Datum::Let),
        v is Int || v is Str || v is Nil,
    ensures
        eval_spec(
            Datum::List(
                seq![
                    Datum::Sym("let"@),
                    Datum::Vector(seq![Datum::Sym(a), v, Datum::Sym(b), Datum::Sym(a)]),
                    Datum::Sym(b),
                ],
            ),
            env,
            f,
            fuel,
        ).0 == v,
{
    let bs = seq![Datum::Sym(a), v, Datum::Sym(b), Datum::Sym(a)];
    let s = seq![Datum::Sym("let"@), Datum::Vector(bs), Datum::Sym(b)];
    let args = s.drop_first();
    assert(args =~= seq![Datum::Vector(bs), Datum::Sym(b)]);
    let k = (fuel - 1) as nat;
    assert(eval_spec(s[0], env, f, k) == (Datum::Let, env));
    let c = env.len();
    let e0 = child_spec(env, f as int);
    assert(let_bindings(bs, 0, e0, c, k) == e0);
    assert(eval_spec(bs[1], e0, c, k) == (v, e0));
    let ea = bind_spec(e0, c as int, a, v);
    assert(let_bindings(bs, 1, e0, c, k) == ea);
    lemma_lookup_after_bind(e0, c as int, a, v);
    assert(eval_spec(bs[3], ea, c, k) == (v, ea));
    let eb = bind_spec(ea, c as int, b, v);
    assert(let_bindings(bs, 2, e0, c, k) == eb);
    lemma_lookup_after_bind(ea, c as int, b, v);
    assert(eval_spec(Datum::Sym(b), eb, c, k) == (v, eb));
    assert(apply_spec(Datum::Let, args, env, f, k).0 == v);
}

/// A closure made by `(fn [x] (+ x n))` in frame `c`, called on an integer `b`,
/// adds to `b` what `n` means in `c`, the frame it was made in, whatever `n` means
/// anywhere else. With `make-adder` of `(fn [n] (fn [x] (+ x n)))`, `c` is the
/// frame of the call `(make-adder 5)`, where `n` is 5, so a later `def` of `n` in
/// an outer frame leaves the closure's result as it was.
pub proof fn lemma_closure_capture(
    x: Seq<char>,
    n: Seq<char>,
    c: nat,
    env: Seq<FrameModel>,
    fuel: nat,
    a: i32,
    b: i32,
)
    requires
        c < env.len(),
        x != n,
        x != "+"@,
        lookup_spec(env, c as int, n) == Some(Datum::Int(a)),
        lookup_spec(env, c as int, "+"@) == Some(
            Datum::Func(crate::value::FnModel::Native(crate::value::NativeFn::Add)),
        ),
        fuel >= 1,
        i32::MIN <= a + b <= i32::MAX,
    ensures
        invoke_spec(
            crate::value::FnModel::Lambda {
                env: c,
                params: seq![x],
                body: Box::new(
                    Datum::List(seq![Datum::Sym("+"@), Datum::Sym(x), Datum::Sym(n)]),
                ),
            },
            seq![Datum::Int(b)],
            env,
            fuel,
        ).0 == Datum::Int((b + a) as i32),
{
    let body = Datum::List(seq![Datum::Sym("+"@), Datum::Sym(x), Datum::Sym(n)]);
    let c2 = env.len();
    let e0 = child_spec(env, c as int);
    let params = seq![x];
    let vals = seq![Datum::Int(b)];
    assert(bind_params(params, vals, e0, c2, 0) == e0);
    let e1 = bind_spec(e0, c2 as int, x, Datum::Int(b));
    assert(bind_params(params, vals, e0, c2, 1) == e1);
    assert(bind_in(Seq::empty(), x, Datum::Int(b)) =~= seq![(x, Datum::Int(b))]);
    assert(e1[c2 as int].bindings == seq![(x, Datum::Int(b))]);
    assert(e1[c2 as int].parent == Some(c));
    assert forall|i: int| 0 <= i < env.len() implies #[trigger] e1[i] == env[i] by {}
    lemma_lookup_kept(env, e1, c as int, "+"@);
    lemma_lookup_kept(env, e1, c as int, n);
    let one = seq![(x, Datum::Int(b))];
    assert(one.drop_last() =~= Seq::<(Seq<char>, Datum)>::empty());
    assert(one.last() == (x, Datum::Int(b)));
    assert(frame_find(one.drop_last(), "+"@) is None);
    assert(frame_find(one.drop_last(), n) is None);
    assert(frame_find(one, "+"@) is None);
    assert(frame_find(one, n) is None);
    assert(frame_find(one, x) == Some(0int));
    let k = (fuel - 1) as nat;
    let items = seq![Datum::Sym("+"@), Datum::Sym(x), Datum::Sym(n)];
    let add = Datum::Func(crate::value::FnModel::Native(crate::value::NativeFn::Add));
    assert(eval_spec(items[0], e1, c2, k) == (add, e1));
    let args = items.drop_first();
    assert(args =~= seq![Datum::Sym(x), Datum::Sym(n)]);
    assert(args.drop_last() =~= seq![Datum::Sym(x)]);
    assert(args.drop_last().drop_last() =~= Seq::<Datum>::empty());
    assert(c2 < e1.len());
    assert(lookup_spec(e1, c2 as int, x) == Some(Datum::Int(b)));
    assert(lookup_spec(e1, c2 as int, n) == Some(Datum::Int(a)));
    assert(eval_all(args.drop_last().drop_last(), e1, c2, k) == (Seq::<Datum>::empty(), e1));
    assert(args.drop_last().last() == Datum::Sym(x));
    assert(eval_spec(Datum::Sym(x), e1, c2, k) == (Datum::Int(b), e1));
    assert(Seq::<Datum>::empty().push(Datum::Int(b)) =~= seq![Datum::Int(b)]);
    assert(eval_all(args.drop_last(), e1, c2, k) == (seq![Datum::Int(b)], e1));
    assert(args.last() == Datum::Sym(n));
    assert(eval_spec(Datum::Sym(n), e1, c2, k) == (Datum::Int(a), e1));
    assert(eval_all(args, e1, c2, k) == (seq![Datum::Int(b)].push(Datum::Int(a)), e1));
    let got = seq![Datum::Int(b), Datum::Int(a)];
    assert(seq![Datum::Int(b)].push(Datum::Int(a)) =~= got);
    assert(got.drop_last() =~= seq![Datum::Int(b)]);
    assert(seq![Datum::Int(b)].drop_last() =~= Seq::<Datum>::empty());
    assert(add_spec(Seq::<Datum>::empty()) == Datum::Int(0));
    assert(seq![Datum::Int(b)].last() == Datum::Int(b));
    assert(add_spec(seq![Datum::Int(b)]) == Datum::Int(b));
    assert(add_spec(got) == Datum::Int((b + a) as i32));
    assert(got.last() == Datum::Int(a));
    assert(apply_spec(add, args, e1, c2, k).0 == Datum::Int((b + a) as i32));
    assert(items.len() > 0);
    assert(eval_spec(body, e1, c2, fuel).0 == Datum::Int((b + a) as i32));
}

} // verus!
