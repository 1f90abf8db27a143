//! The tagged union of every runtime datum, and its mathematical model.
use vstd::prelude::*;
use vstd::string::StringExecFns;

verus! {

/// A name. Two symbols are the same symbol when their names agree.
#[derive(Debug, Hash)]
pub struct Symbol {
    pub name: String,
}

/// The built-in functions every standard environment carries.
#[derive(PartialEq, Eq, Structural, Clone, Copy, Debug, Hash)]
pub enum NativeFn {
    /// `(+ a b ...)`: the sum of integer arguments.
    Add,
    /// `(do a b ...)`: the last argument, or nil when there is none.
    Do,
}

/// A closure made by `fn`: the frame it was defined in, its parameters and its body.
#[derive(Debug, Hash)]
pub struct Closure {
    pub env: usize,
    pub params: Vec<Symbol>,
    pub body: Box<Value>,
}

/// Something that can be invoked on already evaluated arguments.
#[derive(Debug, Hash)]
pub enum Callable {
    Native(NativeFn),
    Lambda(Closure),
}

/// One key and its value inside a map.
#[derive(Debug, Hash)]
pub struct MapEntry {
    pub key: Value,
    pub val: Value,
}

/// Any value the language knows: data and code alike.
#[derive(Debug, Hash)]
pub enum Value {
    I32(i32),
    Symbol(Symbol),
    IFn(Callable),
    /// `eval`: evaluates its one argument, then evaluates the result again.
    LexicalEvalFn,
    PersistentList(Vec<Value>),
    PersistentVector(Vec<Value>),
    PersistentListMap(Vec<MapEntry>),
    /// An error carried as data.
    Condition(String),
    /// A callable applied to its arguments unevaluated; its result is evaluated.
    Macro(Callable),
    QuoteMacro,
    DefmacroMacro,
    DefMacro,
    FnMacro,
    LetMacro,
    String(String),
    Nil,
}

/// The model of a callable.
pub enum FnModel {
    Native(NativeFn),
    Lambda { env: nat, params: Seq<Seq<char>>, body: Box<Datum> },
}

/// The model of a value: what a `Value` means, with names and texts as character
/// sequences and containers as sequences.
pub enum Datum {
    Int(i32),
    Sym(Seq<char>),
    Func(FnModel),
    LexicalEval,
    List(Seq<Datum>),
    Vector(Seq<Datum>),
    Dict(Seq<(Datum, Datum)>),
    Condition(Seq<char>),
    Macro(FnModel),
    Quote,
    Defmacro,
    Def,
    FnForm,
    Let,
    Str(Seq<char>),
    Nil,
}

pub open spec fn symbols_view(s: Seq<Symbol>) -> Seq<Seq<char>> {
    Seq::new(s.len(), |i: int| s[i].name@)
}

impl Callable {
    pub open spec fn view(&self) -> FnModel
        decreases self,
    {
        match self {
            Callable::Native(n) => FnModel::Native(*n),
            Callable::Lambda(c) => FnModel::Lambda {
                env: c.env as nat,
                params: symbols_view(c.params@),
                body: Box::new(c.body.view()),
            },
        }
    }
}

pub open spec fn values_view(s: Seq<Value>) -> Seq<Datum>
    decreases s,
{
    if s.len() == 0 {
        Seq::empty()
    } else {
        values_view(s.drop_last()).push(s.last().view())
    }
}

pub open spec fn entries_view(s: Seq<MapEntry>) -> Seq<(Datum, Datum)>
    decreases s,
{
    if s.len() == 0 {
        Seq::empty()
    } else {
        entries_view(s.drop_last()).push((s.last().key.view(), s.last().val.view()))
    }
}

impl Value {
    pub open spec fn view(&self) -> Datum
        decreases self,
    {
        match self {
            Value::I32(i) => Datum::Int(*i),
            Value::Symbol(s) => Datum::Sym(s.name@),
            Value::IFn(c) => Datum::Func(c.view()),
            Value::LexicalEvalFn => Datum::LexicalEval,
            Value::PersistentList(v) => Datum::List(values_view(v@)),
            Value::PersistentVector(v) => Datum::Vector(values_view(v@)),
            Value::PersistentListMap(v) => Datum::Dict(entries_view(v@)),
            Value::Condition(m) => Datum::Condition(m@),
            Value::Macro(c) => Datum::Macro(c.view()),
            Value::QuoteMacro => Datum::Quote,
            Value::DefmacroMacro => Datum::Defmacro,
            Value::DefMacro => Datum::Def,
            Value::FnMacro => Datum::FnForm,
            Value::LetMacro => Datum::Let,
            Value::String(s) => Datum::Str(s@),
            Value::Nil => Datum::Nil,
        }
    }
}

/// The kind of a value, as reported in error messages.
#[derive(PartialEq, Eq, Structural, Clone, Copy, Debug, Hash)]
pub enum TypeTag {
    I32,
    Symbol,
    IFn,
    PersistentList,
    PersistentVector,
    PersistentListMap,
    Condition,
    Macro,
    String,
    Nil,
}

impl TypeTag {
    pub open spec fn name_spec(self) -> Seq<char> {
        match self {
            TypeTag::I32 => "clojure.lang.Integer"@,
            TypeTag::Symbol => "clojure.lang.Symbol"@,
            TypeTag::IFn => "clojure.lang.Function"@,
            TypeTag::PersistentList => "clojure.lang.PersistentList"@,
            TypeTag::PersistentVector => "clojure.lang.PersistentVector"@,
            TypeTag::PersistentListMap => "clojure.lang.PersistentListMap"@,
            TypeTag::Condition => "clojure.lang.Condition"@,
            TypeTag::Macro => "clojure.lang.Macro"@,
            TypeTag::String => "rust.std.string.String"@,
            TypeTag::Nil => "nil"@,
        }
    }

    /// The name under which the kind is reported.
    pub fn name(&self) -> (r: String)
        ensures
            r@ == self.name_spec(),
    {
        match self {
            TypeTag::I32 => String::from_str("clojure.lang.Integer"),
            TypeTag::Symbol => String::from_str("clojure.lang.Symbol"),
            TypeTag::IFn => String::from_str("clojure.lang.Function"),
            TypeTag::PersistentList => String::from_str("clojure.lang.PersistentList"),
            TypeTag::PersistentVector => String::from_str("clojure.lang.PersistentVector"),
            TypeTag::PersistentListMap => String::from_str("clojure.lang.PersistentListMap"),
            TypeTag::Condition => String::from_str("clojure.lang.Condition"),
            TypeTag::Macro => String::from_str("clojure.lang.Macro"),
            TypeTag::String => String::from_str("rust.std.string.String"),
            TypeTag::Nil => String::from_str("nil"),
        }
    }
}

/// The kind of a modelled value: every callable is a function, every macro a macro.
pub open spec fn tag_of(d: Datum) -> TypeTag {
    match d {
        Datum::Int(_) => TypeTag::I32,
        Datum::Sym(_) => TypeTag::Symbol,
        Datum::Func(_) | Datum::LexicalEval => TypeTag::IFn,
        Datum::List(_) => TypeTag::PersistentList,
        Datum::Vector(_) => TypeTag::PersistentVector,
        Datum::Dict(_) => TypeTag::PersistentListMap,
        Datum::Condition(_) => TypeTag::Condition,
        Datum::Macro(_) | Datum::Quote | Datum::Defmacro | Datum::Def | Datum::FnForm
        | Datum::Let => TypeTag::Macro,
        Datum::Str(_) => TypeTag::String,
        Datum::Nil => TypeTag::Nil,
    }
}

impl Symbol {
    /// The symbol with the given name.
    pub fn intern(name: &str) -> (r: Symbol)
        ensures
            r.name@ == name@,
    {
        Symbol { name: String::from_str(name) }
    }

    pub fn duplicate(&self) -> (r: Symbol)
        ensures
            r.name@ == self.name@,
    {
        Symbol { name: self.name.clone() }
    }
}

pub fn duplicate_symbols(v: &Vec<Symbol>) -> (r: Vec<Symbol>)
    ensures
        symbols_view(r@) == symbols_view(v@),
{
    let mut r: Vec<Symbol> = Vec::new();
    for i in 0..v.len()
        invariant
            r@.len() == i,
            forall|j: int| 0 <= j < i ==> r@[j].name@ == v@[j].name@,
    {
        r.push(v[i].duplicate());
    }
    assert(symbols_view(r@) =~= symbols_view(v@));
    r
}

impl Callable {
    pub fn duplicate(&self) -> (r: Callable)
        ensures
            r@ == self@,
        decreases self,
    {
        match self {
            Callable::Native(n) => Callable::Native(*n),
            Callable::Lambda(c) => Callable::Lambda(
                Closure {
                    env: c.env,
                    params: duplicate_symbols(&c.params),
                    body: Box::new(c.body.duplicate()),
                },
            ),
        }
    }
}

pub proof fn lemma_values_view_push(s: Seq<Value>, x: Value)
    ensures
        values_view(s.push(x)) == values_view(s).push(x@),
{
    assert(s.push(x).drop_last() =~= s);
}

pub proof fn lemma_entries_view_push(s: Seq<MapEntry>, x: MapEntry)
    ensures
        entries_view(s.push(x)) == entries_view(s).push((x.key@, x.val@)),
{
    assert(s.push(x).drop_last() =~= s);
}

pub proof fn lemma_values_view_len(s: Seq<Value>)
    ensures
        values_view(s).len() == s.len(),
    decreases s.len(),
{
    if s.len() > 0 {
        lemma_values_view_len(s.drop_last());
    }
}

pub proof fn lemma_values_view_index(s: Seq<Value>, i: int)
    requires
        0 <= i < s.len(),
    ensures
        values_view(s).len() == s.len(),
        values_view(s)[i] == s[i]@,
    decreases s.len(),
{
    lemma_values_view_len(s);
    if i < s.len() - 1 {
        lemma_values_view_index(s.drop_last(), i);
    }
}

pub proof fn lemma_entries_view_len(s: Seq<MapEntry>)
    ensures
        entries_view(s).len() == s.len(),
    decreases s.len(),
{
    if s.len() > 0 {
        lemma_entries_view_len(s.drop_last());
    }
}

pub proof fn lemma_entries_view_index(s: Seq<MapEntry>, i: int)
    requires
        0 <= i < s.len(),
    ensures
        entries_view(s).len() == s.len(),
        entries_view(s)[i] == (s[i].key@, s[i].val@),
    decreases s.len(),
{
    lemma_entries_view_len(s);
    if i < s.len() - 1 {
        lemma_entries_view_index(s.drop_last(), i);
    }
}

pub fn duplicate_values(v: &Vec<Value>) -> (r: Vec<Value>)
    ensures
        values_view(r@) == values_view(v@),
    decreases v,
{
    let mut r: Vec<Value> = Vec::new();
    for i in 0..v.len()
        invariant
            values_view(r@) == values_view(v@.take(i as int)),
    {
        proof {
            assert(decreases_to!(v => v[i as int]));
        }
        let x = v[i].duplicate();
        proof {
            lemma_values_view_push(r@, x);
            assert(v@.take(i + 1).drop_last() =~= v@.take(i as int));
        }
        r.push(x);
    }
    assert(v@.take(v@.len() as int) =~= v@);
    r
}

pub fn duplicate_entries(v: &Vec<MapEntry>) -> (r: Vec<MapEntry>)
    ensures
        entries_view(r@) == entries_view(v@),
    decreases v,
{
    let mut r: Vec<MapEntry> = Vec::new();
    for i in 0..v.len()
        invariant
            entries_view(r@) == entries_view(v@.take(i as int)),
    {
        proof {
            assert(decreases_to!(v => v[i as int]));
        }
        let x = MapEntry { key: v[i].key.duplicate(), val: v[i].val.duplicate() };
        proof {
            lemma_entries_view_push(r@, x);
            assert(v@.take(i + 1).drop_last() =~= v@.take(i as int));
        }
        r.push(x);
    }
    assert(v@.take(v@.len() as int) =~= v@);
    r
}

impl Value {
    /// A copy that shares nothing with `self` and means the same.
    pub fn duplicate(&self) -> (r: Value)
        ensures
            r@ == self@,
        decreases self,
    {
        match self {
            Value::I32(i) => Value::I32(*i),
            Value::Symbol(s) => Value::Symbol(s.duplicate()),
            Value::IFn(c) => Value::IFn(c.duplicate()),
            Value::LexicalEvalFn => Value::LexicalEvalFn,
            Value::PersistentList(v) => Value::PersistentList(duplicate_values(v)),
            Value::PersistentVector(v) => Value::PersistentVector(duplicate_values(v)),
            Value::PersistentListMap(v) => Value::PersistentListMap(duplicate_entries(v)),
            Value::Condition(m) => Value::Condition(m.clone()),
            Value::Macro(c) => Value::Macro(c.duplicate()),
            Value::QuoteMacro => Value::QuoteMacro,
            Value::DefmacroMacro => Value::DefmacroMacro,
            Value::DefMacro => Value::DefMacro,
            Value::FnMacro => Value::FnMacro,
            Value::LetMacro => Value::LetMacro,
            Value::String(s) => Value::String(s.clone()),
            Value::Nil => Value::Nil,
        }
    }

    /// The kind of this value.
    pub fn type_tag(&self) -> (r: TypeTag)
        ensures
            r == tag_of(self@),
    {
        match self {
            Value::I32(_) => TypeTag::I32,
            Value::Symbol(_) => TypeTag::Symbol,
            Value::IFn(_) => TypeTag::IFn,
            Value::LexicalEvalFn => TypeTag::IFn,
            Value::PersistentList(_) => TypeTag::PersistentList,
            Value::PersistentVector(_) => TypeTag::PersistentVector,
            Value::PersistentListMap(_) => TypeTag::PersistentListMap,
            Value::Condition(_) => TypeTag::Condition,
            Value::Macro(_) => TypeTag::Macro,
            Value::QuoteMacro => TypeTag::Macro,
            Value::DefMacro => TypeTag::Macro,
            Value::DefmacroMacro => TypeTag::Macro,
            Value::LetMacro => TypeTag::Macro,
            Value::FnMacro => TypeTag::Macro,
            Value::String(_) => TypeTag::String,
            Value::Nil => TypeTag::Nil,
        }
    }
}

/// Equality of modelled values: same tag and equal contents. Callables and macros
/// that wrap callables are equal to nothing, themselves included.
pub open spec fn datum_eq(a: Datum, b: Datum) -> bool
    decreases a,
{
    match a {
        Datum::Func(_) | Datum::Macro(_) => false,
        Datum::List(x) => match b {
            Datum::List(y) => data_eq(x, y),
            _ => false,
        },
        Datum::Vector(x) => match b {
            Datum::Vector(y) => data_eq(x, y),
            _ => false,
        },
        Datum::Dict(x) => match b {
            Datum::Dict(y) => dict_eq(x, y),
            _ => false,
        },
        _ => a == b,
    }
}

/// Element-wise equality of two sequences of the same length.
pub open spec fn data_eq(x: Seq<Datum>, y: Seq<Datum>) -> bool
    decreases x,
{
    if x.len() != y.len() {
        false
    } else if x.len() == 0 {
        true
    } else {
        data_eq(x.drop_last(), y.drop_last()) && datum_eq(x.last(), y.last())
    }
}

/// Entry-wise equality of two maps, in order.
pub open spec fn dict_eq(x: Seq<(Datum, Datum)>, y: Seq<(Datum, Datum)>) -> bool
    decreases x,
{
    if x.len() != y.len() {
        false
    } else if x.len() == 0 {
        true
    } else {
        dict_eq(x.drop_last(), y.drop_last()) && datum_eq(x.last().0, y.last().0) && datum_eq(
            x.last().1,
            y.last().1,
        )
    }
}

proof fn lemma_data_eq_index(x: Seq<Datum>, y: Seq<Datum>, i: int)
    requires
        data_eq(x, y),
        0 <= i < x.len(),
    ensures
        datum_eq(x[i], y[i]),
    decreases x.len(),
{
    if i < x.len() - 1 {
        lemma_data_eq_index(x.drop_last(), y.drop_last(), i);
    }
}

proof fn lemma_dict_eq_index(x: Seq<(Datum, Datum)>, y: Seq<(Datum, Datum)>, i: int)
    requires
        dict_eq(x, y),
        0 <= i < x.len(),
    ensures
        datum_eq(x[i].0, y[i].0) && datum_eq(x[i].1, y[i].1),
    decreases x.len(),
{
    if i < x.len() - 1 {
        lemma_dict_eq_index(x.drop_last(), y.drop_last(), i);
    }
}

fn seqs_equal(x: &Vec<Value>, y: &Vec<Value>) -> (r: bool)
    ensures
        r == data_eq(values_view(x@), values_view(y@)),
    decreases x,
{
    proof {
        lemma_values_view_len(x@);
        lemma_values_view_len(y@);
    }
    if x.len() != y.len() {
        return false;
    }
    let ghost a = values_view(x@);
    let ghost b = values_view(y@);
    for i in 0..x.len()
        invariant
            x@.len() == y@.len(),
            a == values_view(x@),
            b == values_view(y@),
            a.len() == x@.len(),
            b.len() == y@.len(),
            data_eq(a.take(i as int), b.take(i as int)),
    {
        proof {
            assert(decreases_to!(x => x[i as int]));
            lemma_values_view_index(x@, i as int);
            lemma_values_view_index(y@, i as int);
        }
        if !values_equal(&x[i], &y[i]) {
            proof {
                if data_eq(a, b) {
                    lemma_data_eq_index(a, b, i as int);
                }
            }
            return false;
        }
        proof {
            assert(a.take(i + 1).drop_last() =~= a.take(i as int));
            assert(b.take(i + 1).drop_last() =~= b.take(i as int));
        }
    }
    proof {
        assert(a.take(a.len() as int) =~= a);
        assert(b.take(b.len() as int) =~= b);
    }
    true
}

fn entries_equal(x: &Vec<MapEntry>, y: &Vec<MapEntry>) -> (r: bool)
    ensures
        r == dict_eq(entries_view(x@), entries_view(y@)),
    decreases x,
{
    proof {
        lemma_entries_view_len(x@);
        lemma_entries_view_len(y@);
    }
    if x.len() != y.len() {
        return false;
    }
    let ghost a = entries_view(x@);
    let ghost b = entries_view(y@);
    for i in 0..x.len()
        invariant
            x@.len() == y@.len(),
            a == entries_view(x@),
            b == entries_view(y@),
            a.len() == x@.len(),
            b.len() == y@.len(),
            dict_eq(a.take(i as int), b.take(i as int)),
    {
        proof {
            assert(decreases_to!(x => x[i as int]));
            lemma_entries_view_index(x@, i as int);
            lemma_entries_view_index(y@, i as int);
        }
        let k = values_equal(&x[i].key, &y[i].key);
        let v = values_equal(&x[i].val, &y[i].val);
        if !k || !v {
            proof {
                if dict_eq(a, b) {
                    lemma_dict_eq_index(a, b, i as int);
                }
            }
            return false;
        }
        proof {
            assert(a.take(i + 1).drop_last() =~= a.take(i as int));
            assert(b.take(i + 1).drop_last() =~= b.take(i as int));
        }
    }
    proof {
        assert(a.take(a.len() as int) =~= a);
        assert(b.take(b.len() as int) =~= b);
    }
    true
}

/// Whether two values are equal in the sense of `datum_eq`.
pub fn values_equal(a: &Value, b: &Value) -> (r: bool)
    ensures
        r == datum_eq(a@, b@),
    decreases a,
{
    match a {
        Value::PersistentList(x) => match b {
            Value::PersistentList(y) => seqs_equal(x, y),
            _ => false,
        },
        Value::PersistentVector(x) => match b {
            Value::PersistentVector(y) => seqs_equal(x, y),
            _ => false,
        },
        Value::PersistentListMap(x) => match b {
            Value::PersistentListMap(y) => entries_equal(x, y),
            _ => false,
        },
        Value::IFn(_) | Value::Macro(_) => false,
        _ => flat_equal(a, b),
    }
}

/// Equality of two values neither of which is a container or a callable.
fn flat_equal(a: &Value, b: &Value) -> (r: bool)
    requires
        !(a is PersistentList || a is PersistentVector || a is PersistentListMap || a is IFn
            || a is Macro),
    ensures
        r == (a@ == b@),
{
    match (a, b) {
        (Value::I32(x), Value::I32(y)) => *x == *y,
        (Value::Symbol(x), Value::Symbol(y)) => x.name == y.name,
        (Value::LexicalEvalFn, Value::LexicalEvalFn) => true,
        (Value::Condition(x), Value::Condition(y)) => *x == *y,
        (Value::QuoteMacro, Value::QuoteMacro) => true,
        (Value::DefmacroMacro, Value::DefmacroMacro) => true,
        (Value::DefMacro, Value::DefMacro) => true,
        (Value::FnMacro, Value::FnMacro) => true,
        (Value::LetMacro, Value::LetMacro) => true,
        (Value::String(x), Value::String(y)) => *x == *y,
        (Value::Nil, Value::Nil) => true,
        _ => false,
    }
}

impl PartialEq for Value {
    fn eq(&self, other: &Value) -> (r: bool)
        ensures
            r == datum_eq(self@, other@),
    {
        values_equal(self, other)
    }
}

impl vstd::std_specs::cmp::PartialEqSpecImpl for Value {
    open spec fn obeys_eq_spec() -> bool {
        false
    }

    open spec fn eq_spec(&self, other: &Value) -> bool {
        datum_eq(self@, other@)
    }
}

/// Where the key `k` sits in a map, if it is there.
pub open spec fn dict_find(s: Seq<(Datum, Datum)>, k: Datum) -> Option<int>
    decreases s.len(),
{
    if s.len() == 0 {
        None
    } else if datum_eq(s.last().0, k) {
        Some(s.len() - 1)
    } else {
        dict_find(s.drop_last(), k)
    }
}

/// The map with `k` bound to `v`: the value of an equal key is replaced in place,
/// a new key goes at the end.
pub open spec fn dict_assoc(s: Seq<(Datum, Datum)>, k: Datum, v: Datum) -> Seq<(Datum, Datum)> {
    match dict_find(s, k) {
        Some(i) => s.update(i, (s[i].0, v)),
        None => s.push((k, v)),
    }
}

pub proof fn lemma_dict_find(s: Seq<(Datum, Datum)>, k: Datum)
    ensures
        match dict_find(s, k) {
            Some(i) => 0 <= i < s.len() && datum_eq(s[i].0, k) && forall|j: int|
                i < j < s.len() ==> !datum_eq(#[trigger] s[j].0, k),
            None => forall|j: int| 0 <= j < s.len() ==> !datum_eq(#[trigger] s[j].0, k),
        },
    decreases s.len(),
{
    if s.len() > 0 {
        lemma_dict_find(s.drop_last(), k);
        assert(forall|j: int| 0 <= j < s.len() - 1 ==> s.drop_last()[j] == s[j]);
    }
}

/// Binds `key` to `val` in a map held as entries, as `dict_assoc` says.
pub fn assoc(entries: &mut Vec<MapEntry>, key: Value, val: Value)
    ensures
        entries_view(final(entries)@) == dict_assoc(entries_view(old(entries)@), key@, val@),
{
    let ghost s = entries_view(entries@);
    proof {
        lemma_entries_view_len(entries@);
        lemma_dict_find(s, key@);
    }
    let mut i = entries.len();
    while i > 0
        invariant
            i <= entries@.len(),
            *entries == *old(entries),
            s == entries_view(entries@),
            s.len() == entries@.len(),
            forall|j: int| i <= j < s.len() ==> !datum_eq(#[trigger] s[j].0, key@),
        decreases i,
    {
        i = i - 1;
        proof {
            lemma_entries_view_index(entries@, i as int);
        }
        if values_equal(&entries[i].key, &key) {
            proof {
                lemma_dict_find(s, key@);
                match dict_find(s, key@) {
                    Some(k) => {
                        if k > i {
                            assert(!datum_eq(s[k].0, key@));
                        }
                    },
                    None => {},
                }
            }
            let mut e = entries.remove(i);
            e.val = val;
            entries.insert(i, e);
            proof {
                let t = entries_view(entries@);
                lemma_entries_view_len(entries@);
                assert forall|j: int| 0 <= j < t.len() implies t[j] == s.update(i as int, (s[i as int].0, val@))[j] by {
                    lemma_entries_view_index(entries@, j);
                    lemma_entries_view_index(old(entries)@, j);
                }
                assert(t =~= s.update(i as int, (s[i as int].0, val@)));
            }
            return;
        }
    }
    let ghost e = MapEntry { key, val };
    proof {
        lemma_dict_find(s, key@);
        lemma_entries_view_push(entries@, e);
    }
    entries.push(MapEntry { key, val });
}

/// Conversion of plain data into a value.
pub trait ToValue {
    /// The value that `self` stands for.
    spec fn value_of(&self) -> Datum;

    fn to_value(&self) -> (r: Value)
        ensures
            r@ == self.value_of(),
    ;

    fn to_rc_value(&self) -> (r: std::rc::Rc<Value>)
        ensures
            (*r)@ == self.value_of(),
    {
        std::rc::Rc::new(self.to_value())
    }
}

impl ToValue for Value {
    open spec fn value_of(&self) -> Datum {
        self@
    }

    fn to_value(&self) -> (r: Value) {
        self.duplicate()
    }
}

impl ToValue for i32 {
    open spec fn value_of(&self) -> Datum {
        Datum::Int(*self)
    }

    fn to_value(&self) -> (r: Value) {
        Value::I32(*self)
    }
}

impl ToValue for String {
    open spec fn value_of(&self) -> Datum {
        Datum::Str(self@)
    }

    fn to_value(&self) -> (r: Value) {
        Value::String(self.clone())
    }
}

impl ToValue for Symbol {
    open spec fn value_of(&self) -> Datum {
        Datum::Sym(self.name@)
    }

    fn to_value(&self) -> (r: Value) {
        Value::Symbol(self.duplicate())
    }
}

impl ToValue for Vec<Value> {
    /// A sequence of values stands for the list of them.
    open spec fn value_of(&self) -> Datum {
        Datum::List(values_view(self@))
    }

    fn to_value(&self) -> (r: Value) {
        Value::PersistentList(duplicate_values(self))
    }
}

} // verus!
