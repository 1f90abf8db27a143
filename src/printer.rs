//! The printed form of values. Strings print bare on their own and in quotes
//! inside a printed collection.
use vstd::prelude::*;
use vstd::string::StringExecFns;
use crate::text::{push_signed_decimal, signed_decimal};
use crate::value::{
    entries_view, values_view, Datum, MapEntry, Value, lemma_entries_view_index,
    lemma_entries_view_len, lemma_values_view_index, lemma_values_view_len,
};

verus! {

/// How a value reads when printed on its own.
pub open spec fn render(d: Datum) -> Seq<char>
    decreases d, 0nat,
{
    match d {
        Datum::Int(i) => signed_decimal(i as int),
        Datum::Sym(n) => n,
        Datum::Func(_) => "#function[]"@,
        Datum::LexicalEval => "#function[lexical-eval*]"@,
        Datum::List(xs) => "("@ + render_seq(xs) + ")"@,
        Datum::Vector(xs) => "["@ + render_seq(xs) + "]"@,
        Datum::Dict(es) => "{"@ + render_entries(es) + "}"@,
        Datum::Condition(m) => "#Condition[\""@ + m + "\"]"@,
        Datum::Macro(_) => "#macro[]"@,
        Datum::Quote => "#macro[quote*]"@,
        Datum::Def => "#macro[def*]"@,
        Datum::Defmacro => "#macro[defmacro*]"@,
        Datum::FnForm => "#macro[fn*]"@,
        Datum::Let => "#macro[let*]"@,
        Datum::Str(s) => s,
        Datum::Nil => "nil"@,
    }
}

/// How a value reads inside a printed collection: strings are quoted.
pub open spec fn render_explicit(d: Datum) -> Seq<char>
    decreases d, 1nat,
{
    match d {
        Datum::Str(s) => "\""@ + s + "\""@,
        _ => render(d),
    }
}

/// The elements of a collection, printed explicitly and separated by spaces.
pub open spec fn render_seq(xs: Seq<Datum>) -> Seq<char>
    decreases xs, 2nat,
{
    if xs.len() == 0 {
        Seq::empty()
    } else if xs.len() == 1 {
        render_explicit(xs[0])
    } else {
        render_seq(xs.drop_last()) + " "@ + render_explicit(xs.last())
    }
}

/// The entries of a map, each as key and value, all separated by spaces.
pub open spec fn render_entries(es: Seq<(Datum, Datum)>) -> Seq<char>
    decreases es, 2nat,
{
    if es.len() == 0 {
        Seq::empty()
    } else if es.len() == 1 {
        render_explicit(es[0].0) + " "@ + render_explicit(es[0].1)
    } else {
        render_entries(es.drop_last()) + " "@ + render_explicit(es.last().0) + " "@
            + render_explicit(es.last().1)
    }
}

fn push_seq(out: &mut String, xs: &Vec<Value>)
    ensures
        final(out)@ == old(out)@ + render_seq(values_view(xs@)),
    decreases xs, 2nat,
{
    let ghost v = values_view(xs@);
    proof {
        lemma_values_view_len(xs@);
    }
    let mut i: usize = 0;
    while i < xs.len()
        invariant
            i <= xs@.len(),
            v == values_view(xs@),
            v.len() == xs@.len(),
            out@ == old(out)@ + render_seq(v.take(i as int)),
        decreases xs@.len() - i,
    {
        proof {
            assert(decreases_to!(xs => xs[i as int]));
            lemma_values_view_index(xs@, i as int);
            assert(v.take(i + 1).drop_last() =~= v.take(i as int));
        }
        let ghost before = out@;
        if i > 0 {
            out.append(" ");
        }
        push_explicit(out, &xs[i]);
        proof {
            if i == 0 {
                assert(v.take(1)[0] == v[0]);
                assert(before + render_explicit(v[0]) =~= old(out)@ + render_seq(v.take(1)));
            } else {
                assert(out@ =~= old(out)@ + render_seq(v.take(i + 1)));
            }
        }
        i = i + 1;
    }
    proof {
        assert(v.take(i as int) =~= v);
    }
}

fn push_entries(out: &mut String, es: &Vec<MapEntry>)
    ensures
        final(out)@ == old(out)@ + render_entries(entries_view(es@)),
    decreases es, 2nat,
{
    let ghost v = entries_view(es@);
    proof {
        lemma_entries_view_len(es@);
    }
    let mut i: usize = 0;
    while i < es.len()
        invariant
            i <= es@.len(),
            v == entries_view(es@),
            v.len() == es@.len(),
            out@ == old(out)@ + render_entries(v.take(i as int)),
        decreases es@.len() - i,
    {
        proof {
            assert(decreases_to!(es => es[i as int]));
            lemma_entries_view_index(es@, i as int);
            assert(v.take(i + 1).drop_last() =~= v.take(i as int));
        }
        let ghost before = out@;
        if i > 0 {
            out.append(" ");
        }
        push_explicit(out, &es[i].key);
        out.append(" ");
        push_explicit(out, &es[i].val);
        proof {
            if i == 0 {
                assert(v.take(1)[0] == v[0]);
                assert(out@ =~= old(out)@ + render_entries(v.take(1)));
            } else {
                assert(out@ =~= old(out)@ + render_entries(v.take(i + 1)));
            }
        }
        i = i + 1;
    }
    proof {
        assert(v.take(i as int) =~= v);
    }
}

fn push_explicit(out: &mut String, v: &Value)
    ensures
        final(out)@ == old(out)@ + render_explicit(v@),
    decreases v, 1nat,
{
    match v {
        Value::String(s) => {
            out.append("\"");
            out.append(s.as_str());
            out.append("\"");
            proof {
                assert(final(out)@ =~= old(out)@ + render_explicit(v@));
            }
        },
        _ => push_value(out, v),
    }
}

/// Appends the printed form of `v` to `out`.
pub fn push_value(out: &mut String, v: &Value)
    ensures
        final(out)@ == old(out)@ + render(v@),
    decreases v, 0nat,
{
    let ghost start = out@;
    match v {
        Value::I32(i) => push_signed_decimal(out, *i),
        Value::Symbol(sym) => out.append(sym.name.as_str()),
        Value::IFn(_) => out.append("#function[]"),
        Value::LexicalEvalFn => out.append("#function[lexical-eval*]"),
        Value::PersistentList(xs) => {
            out.append("(");
            push_seq(out, xs);
            out.append(")");
        },
        Value::PersistentVector(xs) => {
            out.append("[");
            push_seq(out, xs);
            out.append("]");
        },
        Value::PersistentListMap(es) => {
            out.append("{");
            push_entries(out, es);
            out.append("}");
        },
        Value::Condition(m) => {
            out.append("#Condition[\"");
            out.append(m.as_str());
            out.append("\"]");
        },
        Value::Macro(_) => out.append("#macro[]"),
        Value::QuoteMacro => out.append("#macro[quote*]"),
        Value::DefMacro => out.append("#macro[def*]"),
        Value::DefmacroMacro => out.append("#macro[defmacro*]"),
        Value::FnMacro => out.append("#macro[fn*]"),
        Value::LetMacro => out.append("#macro[let*]"),
        Value::String(s) => out.append(s.as_str()),
        Value::Nil => out.append("nil"),
    }
    proof {
        assert(final(out)@ =~= start + render(v@));
    }
}

impl Value {
    /// The printed form of this value; a string prints bare.
    pub fn to_string(&self) -> (r: String)
        ensures
            r@ == render(self@),
    {
        let mut out = String::new();
        push_value(&mut out, self);
        proof {
            assert(out@ =~= render(self@));
        }
        out
    }

    /// The printed form of this value as an element of a collection: a string
    /// prints in quotes.
    pub fn to_string_explicit(&self) -> (r: String)
        ensures
            r@ == render_explicit(self@),
    {
        let mut out = String::new();
        push_explicit(&mut out, self);
        proof {
            assert(out@ =~= render_explicit(self@));
        }
        out
    }
}

} // verus!
