//! The reader: turns text into forms.
//!
//! A form is read at a position of a character sequence. Leading whitespace is
//! skipped; the first remaining character decides what is read: `{` a map, `"` a
//! string, a letter or one of `|?<>+-_=^%&$*!` a symbol, a digit an integer, `(` a
//! list and `[` a vector. Collections read their elements by reading forms in
//! turn until the closing delimiter. A successful read returns the position just
//! after the form, so a text holding several forms can be read form by form.
use vstd::prelude::*;
use vstd::string::{StrSliceExecFns, StringExecFns};
use crate::value::{
    assoc, dict_assoc, entries_view, values_view, Datum, MapEntry, Symbol, Value,
};

verus! {

pub open spec fn is_ws(c: char) -> bool {
    c == ' ' || c == '\t' || c == '\r' || c == '\n'
}

pub open spec fn is_punct(c: char) -> bool {
    c == '|' || c == '?' || c == '<' || c == '>' || c == '+' || c == '-' || c == '_' || c == '='
        || c == '^' || c == '%' || c == '&' || c == '$' || c == '*' || c == '!'
}

pub open spec fn is_letter(c: char) -> bool {
    ('a' as u32 <= c as u32 <= 'z' as u32) || ('A' as u32 <= c as u32 <= 'Z' as u32)
}

pub open spec fn is_digit(c: char) -> bool {
    '0' as u32 <= c as u32 <= '9' as u32
}

/// Characters that may start a symbol: digits may not.
pub open spec fn ident_start(c: char) -> bool {
    is_letter(c) || is_punct(c)
}

/// Characters that may continue a symbol.
pub open spec fn ident_char(c: char) -> bool {
    is_letter(c) || is_punct(c) || is_digit(c)
}

/// The first position at or after `p` that does not hold whitespace.
pub open spec fn skip_ws(s: Seq<char>, p: int) -> int
    decreases s.len() - p,
{
    if 0 <= p < s.len() && is_ws(s[p]) {
        skip_ws(s, p + 1)
    } else {
        p
    }
}

/// The end of the run of symbol characters that starts at `p`.
pub open spec fn scan_ident(s: Seq<char>, p: int) -> int
    decreases s.len() - p,
{
    if 0 <= p < s.len() && ident_char(s[p]) {
        scan_ident(s, p + 1)
    } else {
        p
    }
}

/// The end of the run of digits that starts at `p`.
pub open spec fn scan_digits(s: Seq<char>, p: int) -> int
    decreases s.len() - p,
{
    if 0 <= p < s.len() && is_digit(s[p]) {
        scan_digits(s, p + 1)
    } else {
        p
    }
}

/// The position of the first `"` at or after `p`.
pub open spec fn find_quote(s: Seq<char>, p: int) -> Option<int>
    decreases s.len() - p,
{
    if !(0 <= p < s.len()) {
        None
    } else if s[p] == '"' {
        Some(p)
    } else {
        find_quote(s, p + 1)
    }
}

/// The number that a run of decimal digits writes.
pub open spec fn digits_value(d: Seq<char>) -> int
    decreases d.len(),
{
    if d.len() == 0 {
        0
    } else {
        digits_value(d.drop_last()) * 10 + (d.last() as u32 - '0' as u32)
    }
}

/// A map built from entries in order, a later equal key replacing an earlier one's value.
pub open spec fn assoc_all(pairs: Seq<(Datum, Datum)>) -> Seq<(Datum, Datum)>
    decreases pairs.len(),
{
    if pairs.len() == 0 {
        Seq::empty()
    } else {
        dict_assoc(assoc_all(pairs.drop_last()), pairs.last().0, pairs.last().1)
    }
}

/// Reads one form at `p`: the position after it and the form, or `None`.
pub open spec fn read_spec(s: Seq<char>, p: int) -> Option<(int, Datum)>
    decreases s.len() - p, 0int,
{
    if !(0 <= p < s.len()) {
        None
    } else if is_ws(s[p]) {
        read_spec(s, p + 1)
    } else if s[p] == '{' {
        match read_entries(s, p + 1) {
            Some((e, pairs)) => Some((e, Datum::Dict(assoc_all(pairs)))),
            None => None,
        }
    } else if s[p] == '"' {
        match find_quote(s, p + 1) {
            Some(e) => Some((e + 1, Datum::Str(s.subrange(p + 1, e)))),
            None => None,
        }
    } else if ident_start(s[p]) {
        let e = scan_ident(s, p + 1);
        Some((e, Datum::Sym(s.subrange(p, e))))
    } else if is_digit(s[p]) {
        let e = scan_digits(s, p + 1);
        let v = digits_value(s.subrange(p, e));
        if v <= i32::MAX {
            Some((e, Datum::Int(v as i32)))
        } else {
            None
        }
    } else if s[p] == '(' {
        match read_items(s, p + 1, ')') {
            Some((e, xs)) => Some((e, Datum::List(xs))),
            None => None,
        }
    } else if s[p] == '[' {
        match read_items(s, p + 1, ']') {
            Some((e, xs)) => Some((e, Datum::Vector(xs))),
            None => None,
        }
    } else {
        None
    }
}

/// Reads forms from `p` up to and including the delimiter `close` and the
/// whitespace after it.
pub open spec fn read_items(s: Seq<char>, p: int, close: char) -> Option<(int, Seq<Datum>)>
    decreases s.len() - p, 1int,
{
    if !(0 <= p < s.len()) {
        None
    } else if is_ws(s[p]) {
        read_items(s, p + 1, close)
    } else if s[p] == close {
        Some((skip_ws(s, p + 1), Seq::empty()))
    } else {
        match read_spec(s, p) {
            Some((p2, x)) => if p2 <= p || p2 > s.len() {
                None
            } else {
                match read_items(s, p2, close) {
                    Some((e, xs)) => Some((e, seq![x] + xs)),
                    None => None,
                }
            },
            None => None,
        }
    }
}

/// Reads key and value forms from `p` up to and including `}` and the whitespace
/// after it.
pub open spec fn read_entries(s: Seq<char>, p: int) -> Option<(int, Seq<(Datum, Datum)>)>
    decreases s.len() - p, 1int,
{
    if !(0 <= p < s.len()) {
        None
    } else if is_ws(s[p]) {
        read_entries(s, p + 1)
    } else if s[p] == '}' {
        Some((skip_ws(s, p + 1), Seq::empty()))
    } else {
        match read_spec(s, p) {
            Some((p2, k)) => if p2 <= p || p2 > s.len() {
                None
            } else {
                match read_spec(s, p2) {
                    Some((p3, v)) => if p3 <= p2 || p3 > s.len() {
                        None
                    } else {
                        match read_entries(s, p3) {
                            Some((e, es)) => Some((e, seq![(k, v)] + es)),
                            None => None,
                        }
                    },
                    None => None,
                }
            },
            None => None,
        }
    }
}

pub open spec fn prepend_items(acc: Seq<Datum>, r: Option<(int, Seq<Datum>)>) -> Option<
    (int, Seq<Datum>),
> {
    match r {
        Some((e, xs)) => Some((e, acc + xs)),
        None => None,
    }
}

pub open spec fn prepend_entries(
    acc: Seq<(Datum, Datum)>,
    r: Option<(int, Seq<(Datum, Datum)>)>,
) -> Option<(int, Seq<(Datum, Datum)>)> {
    match r {
        Some((e, xs)) => Some((e, acc + xs)),
        None => None,
    }
}

/// Whether the first character at or after `p` that is not whitespace is `c`.
pub open spec fn opens_at(s: Seq<char>, p: int, c: char) -> bool {
    let q = skip_ws(s, p);
    0 <= q < s.len() && s[q] == c
}

proof fn lemma_read_spec_skip(s: Seq<char>, p: int)
    requires
        0 <= p <= s.len(),
    ensures
        read_spec(s, p) == read_spec(s, skip_ws(s, p)),
    decreases s.len() - p,
{
    if p < s.len() && is_ws(s[p]) {
        lemma_read_spec_skip(s, p + 1);
    }
}

/// Text being read, with its characters laid out for access by position.
pub struct Source<'a> {
    pub text: &'a str,
    pub chars: Vec<char>,
}

impl<'a> Source<'a> {
    pub open spec fn wf(&self) -> bool {
        self.chars@ == self.text@
    }

    pub fn new(text: &'a str) -> (r: Source<'a>)
        ensures
            r.wf(),
            r.text == text,
    {
        let n = text.unicode_len();
        let mut chars: Vec<char> = Vec::new();
        let mut i: usize = 0;
        while i < n
            invariant
                i <= n,
                n == text@.len(),
                chars@ == text@.take(i as int),
            decreases n - i,
        {
            let c = text.get_char(i);
            chars.push(c);
            i = i + 1;
            proof {
                assert(chars@ =~= text@.take(i as int));
            }
        }
        proof {
            assert(text@.take(n as int) =~= text@);
        }
        Source { text, chars }
    }
}

/// Why a read failed: no form could be read from the text at `position`.
#[derive(Debug, PartialEq, Eq, Structural, Clone, Copy)]
pub struct ReadError {
    pub position: usize,
}

fn ws_char(c: char) -> (r: bool)
    ensures
        r == is_ws(c),
{
    c == ' ' || c == '\t' || c == '\r' || c == '\n'
}

fn digit_char(c: char) -> (r: bool)
    ensures
        r == is_digit(c),
{
    '0' <= c && c <= '9'
}

fn ident_start_char(c: char) -> (r: bool)
    ensures
        r == ident_start(c),
{
    ('a' <= c && c <= 'z') || ('A' <= c && c <= 'Z') || c == '|' || c == '?' || c == '<' || c
        == '>' || c == '+' || c == '-' || c == '_' || c == '=' || c == '^' || c == '%' || c == '&'
        || c == '$' || c == '*' || c == '!'
}

fn ident_char_char(c: char) -> (r: bool)
    ensures
        r == ident_char(c),
{
    ident_start_char(c) || digit_char(c)
}

/// The first position at or after `p` that does not hold whitespace.
pub fn skip_whitespace(s: &Vec<char>, p: usize) -> (r: usize)
    requires
        p <= s@.len(),
    ensures
        r as int == skip_ws(s@, p as int),
        p <= r <= s@.len(),
{
    let mut q = p;
    while q < s.len() && ws_char(s[q])
        invariant
            p <= q <= s@.len(),
            skip_ws(s@, q as int) == skip_ws(s@, p as int),
        decreases s@.len() - q,
    {
        q = q + 1;
    }
    q
}

fn scan_identifier(s: &Vec<char>, p: usize) -> (r: usize)
    requires
        p <= s@.len(),
    ensures
        r as int == scan_ident(s@, p as int),
        p <= r <= s@.len(),
{
    let mut q = p;
    while q < s.len() && ident_char_char(s[q])
        invariant
            p <= q <= s@.len(),
            scan_ident(s@, q as int) == scan_ident(s@, p as int),
        decreases s@.len() - q,
    {
        q = q + 1;
    }
    q
}

fn scan_digit_run(s: &Vec<char>, p: usize) -> (r: usize)
    requires
        p <= s@.len(),
    ensures
        r as int == scan_digits(s@, p as int),
        p <= r <= s@.len(),
        forall|i: int| p <= i < r ==> is_digit(#[trigger] s@[i]),
{
    let mut q = p;
    while q < s.len() && digit_char(s[q])
        invariant
            p <= q <= s@.len(),
            scan_digits(s@, q as int) == scan_digits(s@, p as int),
            forall|i: int| p <= i < q ==> is_digit(#[trigger] s@[i]),
        decreases s@.len() - q,
    {
        q = q + 1;
    }
    q
}

proof fn lemma_digits_nonneg(d: Seq<char>)
    requires
        forall|i: int| 0 <= i < d.len() ==> is_digit(#[trigger] d[i]),
    ensures
        digits_value(d) >= 0,
    decreases d.len(),
{
    if d.len() > 0 {
        lemma_digits_nonneg(d.drop_last());
    }
}

proof fn lemma_digits_grow(d: Seq<char>, k: int)
    requires
        0 <= k <= d.len(),
        forall|i: int| 0 <= i < d.len() ==> is_digit(#[trigger] d[i]),
    ensures
        digits_value(d.take(k)) <= digits_value(d),
    decreases d.len(),
{
    if k < d.len() {
        let t = d.drop_last();
        lemma_digits_grow(t, k);
        lemma_digits_nonneg(t);
        assert(t.take(k) =~= d.take(k));
    } else {
        assert(d.take(k) =~= d);
    }
}

/// Reads the run of symbol characters at `p`, which must not start with a digit.
pub fn identifier_parser(src: &Source, p: usize) -> (r: Option<(usize, String)>)
    requires
        src.wf(),
        p <= src.chars@.len(),
    ensures
        match r {
            Some((e, name)) => p < src.chars@.len() && ident_start(src.chars@[p as int]) && e as int
                == scan_ident(src.chars@, p + 1) && p < e <= src.chars@.len() && name@
                == src.chars@.subrange(p as int, e as int),
            None => !(p < src.chars@.len() && ident_start(src.chars@[p as int])),
        },
{
    if p >= src.chars.len() || !ident_start_char(src.chars[p]) {
        return None;
    }
    let e = scan_identifier(&src.chars, p + 1);
    let name = src.text.substring_char(p, e);
    Some((e, String::from_str(name)))
}

/// Reads a symbol at `p`.
pub fn symbol_parser(src: &Source, p: usize) -> (r: Option<(usize, Symbol)>)
    requires
        src.wf(),
        p <= src.chars@.len(),
    ensures
        match r {
            Some((e, sym)) => p < src.chars@.len() && ident_start(src.chars@[p as int]) && e as int
                == scan_ident(src.chars@, p + 1) && p < e <= src.chars@.len() && sym.name@
                == src.chars@.subrange(p as int, e as int),
            None => !(p < src.chars@.len() && ident_start(src.chars@[p as int])),
        },
{
    match identifier_parser(src, p) {
        Some((e, name)) => Some((e, Symbol { name })),
        None => None,
    }
}

/// Reads the digits at `p` as a non-negative 32-bit integer; fails where no digit
/// stands at `p` or the number does not fit.
pub fn integer(src: &Source, p: usize) -> (r: Option<(usize, i32)>)
    requires
        src.wf(),
        p <= src.chars.len(),
    ensures
        ({
            let starts = p < src.chars@.len() && is_digit(src.chars@[p as int]);
            let e = scan_digits(src.chars@, p + 1);
            let v = digits_value(src.chars@.subrange(p as int, e));
            match r {
                Some((e2, i)) => starts && e2 == e && p < e2 <= src.chars@.len() && v <= i32::MAX
                    && i as int == v,
                None => !starts || v > i32::MAX,
            }
        }),
{
    if p >= src.chars.len() || !digit_char(src.chars[p]) {
        return None;
    }
    let s = &src.chars;
    let e = scan_digit_run(s, p + 1);
    let ghost d = s@.subrange(p as int, e as int);
    let mut acc: i64 = 0;
    let mut i = p;
    while i < e
        invariant
            p <= i <= e <= s@.len(),
            s@ == src.chars@,
            e as int == scan_digits(src.chars@, p + 1),
            d == s@.subrange(p as int, e as int),
            forall|j: int| 0 <= j < d.len() ==> is_digit(#[trigger] d[j]),
            0 <= acc <= i32::MAX,
            acc as int == digits_value(d.take(i - p)),
        decreases e - i,
    {
        proof {
            assert(d.take(i + 1 - p).drop_last() =~= d.take(i - p));
            assert(d[i - p] == s@[i as int]);
        }
        let digit = (s[i] as u32 - '0' as u32) as i64;
        acc = acc * 10 + digit;
        assert(acc as int == digits_value(d.take(i + 1 - p)));
        if acc > i32::MAX as i64 {
            proof {
                lemma_digits_grow(d, i + 1 - p);
            }
            return None;
        }
        i = i + 1;
    }
    proof {
        assert(d.take(e - p) =~= d);
    }
    Some((e, acc as i32))
}

fn string_at(src: &Source, p: usize) -> (r: Option<(usize, Value)>)
    requires
        src.wf(),
        p < src.chars.len(),
        src.chars@[p as int] == '"',
    ensures
        match r {
            Some((e, v)) => read_spec(src.chars@, p as int) == Some((e as int, v@)) && p < e
                <= src.chars@.len(),
            None => read_spec(src.chars@, p as int) is None,
        },
{
    let s = &src.chars;
    let b = p + 1;
    let mut q = b;
    while q < s.len() && s[q] != '"'
        invariant
            b <= q <= s@.len(),
            find_quote(s@, q as int) == find_quote(s@, b as int),
        decreases s@.len() - q,
    {
        q = q + 1;
    }
    if q >= s.len() {
        return None;
    }
    let content = src.text.substring_char(b, q);
    Some((q + 1, Value::String(String::from_str(content))))
}

/// Reads a string after any whitespace at `p`: the text between `"` and the next
/// `"`, kept as it is. There are no escapes.
pub fn try_read_string(src: &Source, p: usize) -> (r: Option<(usize, Value)>)
    requires
        src.wf(),
        p <= src.chars.len(),
    ensures
        match r {
            Some((e, v)) => opens_at(src.chars@, p as int, '"') && read_spec(src.chars@, p as int)
                == Some((e as int, v@)) && p < e <= src.chars@.len(),
            None => !opens_at(src.chars@, p as int, '"') || read_spec(src.chars@, p as int) is None,
        },
{
    let q = skip_whitespace(&src.chars, p);
    if q >= src.chars.len() || src.chars[q] != '"' {
        return None;
    }
    proof {
        lemma_read_spec_skip(src.chars@, p as int);
    }
    string_at(src, q)
}

/// Reads a symbol at `p`; fails where no character that may start one stands there.
pub fn try_read_symbol(src: &Source, p: usize) -> (r: Option<(usize, Value)>)
    requires
        src.wf(),
        p <= src.chars.len(),
    ensures
        match r {
            Some((e, v)) => p < src.chars@.len() && ident_start(src.chars@[p as int]) && read_spec(
                src.chars@,
                p as int,
            ) == Some((e as int, v@)) && p < e <= src.chars@.len(),
            None => !(p < src.chars@.len() && ident_start(src.chars@[p as int])),
        },
{
    match symbol_parser(src, p) {
        Some((e, sym)) => Some((e, Value::Symbol(sym))),
        None => None,
    }
}

/// Reads an integer at `p`; fails where no digit stands there or the number does
/// not fit.
pub fn try_read_i32(src: &Source, p: usize) -> (r: Option<(usize, Value)>)
    requires
        src.wf(),
        p <= src.chars.len(),
    ensures
        match r {
            Some((e, v)) => p < src.chars@.len() && is_digit(src.chars@[p as int]) && read_spec(
                src.chars@,
                p as int,
            ) == Some((e as int, v@)) && p < e <= src.chars@.len(),
            None => !(p < src.chars@.len() && is_digit(src.chars@[p as int])) || read_spec(
                src.chars@,
                p as int,
            ) is None,
        },
{
    match integer(src, p) {
        Some((e, i)) => Some((e, Value::I32(i))),
        None => None,
    }
}

/// Reads forms from `p` until the delimiter `close`, which is consumed with the
/// whitespace after it.
fn read_until(src: &Source, p: usize, close: char) -> (r: Option<(usize, Vec<Value>)>)
    requires
        src.wf(),
        p <= src.chars@.len(),
    ensures
        match r {
            Some((e, xs)) => read_items(src.chars@, p as int, close) == Some(
                (e as int, values_view(xs@)),
            ) && p < e <= src.chars@.len(),
            None => read_items(src.chars@, p as int, close) is None,
        },
    decreases src.chars@.len() - p, 3int,
{
    let s = &src.chars;
    let ghost whole = read_items(s@, p as int, close);
    let mut acc: Vec<Value> = Vec::new();
    let mut q = p;
    while q < s.len()
        invariant
            p <= q <= s@.len(),
            s@ == src.chars@,
            src.wf(),
            whole == read_items(s@, p as int, close),
            whole == prepend_items(values_view(acc@), read_items(s@, q as int, close)),
        decreases s@.len() - q,
    {
        if ws_char(s[q]) {
            q = q + 1;
        } else if s[q] == close {
            let e = skip_whitespace(s, q + 1);
            proof {
                assert(values_view(acc@) + Seq::<Datum>::empty() =~= values_view(acc@));
            }
            return Some((e, acc));
        } else {
            match read_form(src, q) {
                Some((q2, x)) => {
                    proof {
                        crate::value::lemma_values_view_push(acc@, x);
                        match read_items(s@, q2 as int, close) {
                            Some((e, xs)) => {
                                assert(values_view(acc@) + (seq![x@] + xs) =~= values_view(
                                    acc@,
                                ).push(x@) + xs);
                            },
                            None => {},
                        }
                    }
                    acc.push(x);
                    q = q2;
                },
                None => {
                    return None;
                },
            }
        }
    }
    None
}

fn list_at(src: &Source, p: usize) -> (r: Option<(usize, Value)>)
    requires
        src.wf(),
        p < src.chars.len(),
        src.chars@[p as int] == '(',
    ensures
        match r {
            Some((e, v)) => read_spec(src.chars@, p as int) == Some((e as int, v@)) && p < e
                <= src.chars@.len(),
            None => read_spec(src.chars@, p as int) is None,
        },
    decreases src.chars@.len() - p, 1int,
{
    match read_until(src, p + 1, ')') {
        Some((e, xs)) => Some((e, Value::PersistentList(xs))),
        None => None,
    }
}

fn vector_at(src: &Source, p: usize) -> (r: Option<(usize, Value)>)
    requires
        src.wf(),
        p < src.chars.len(),
        src.chars@[p as int] == '[',
    ensures
        match r {
            Some((e, v)) => read_spec(src.chars@, p as int) == Some((e as int, v@)) && p < e
                <= src.chars@.len(),
            None => read_spec(src.chars@, p as int) is None,
        },
    decreases src.chars@.len() - p, 1int,
{
    match read_until(src, p + 1, ']') {
        Some((e, xs)) => Some((e, Value::PersistentVector(xs))),
        None => None,
    }
}

fn map_at(src: &Source, p: usize) -> (r: Option<(usize, Value)>)
    requires
        src.wf(),
        p < src.chars.len(),
        src.chars@[p as int] == '{',
    ensures
        match r {
            Some((e, v)) => read_spec(src.chars@, p as int) == Some((e as int, v@)) && p < e
                <= src.chars@.len(),
            None => read_spec(src.chars@, p as int) is None,
        },
    decreases src.chars@.len() - p, 1int,
{
    let s = &src.chars;
    let ghost whole = read_entries(s@, p + 1);
    let mut raw: Vec<MapEntry> = Vec::new();
    let mut q = p + 1;
    while q < s.len()
        invariant
            p < q <= s@.len(),
            s@ == src.chars@,
            src.chars@[p as int] == '{',
            src.wf(),
            whole == read_entries(s@, p + 1),
            whole == prepend_entries(entries_view(raw@), read_entries(s@, q as int)),
        decreases s@.len() - q,
    {
        if ws_char(s[q]) {
            q = q + 1;
        } else if s[q] == '}' {
            let e = skip_whitespace(s, q + 1);
            proof {
                assert(entries_view(raw@) + Seq::<(Datum, Datum)>::empty() =~= entries_view(raw@));
                assert(read_entries(s@, q as int) == Some((e as int, Seq::<(Datum, Datum)>::empty())));
                assert(whole == Some((e as int, entries_view(raw@))));
            }
            let map = build_map(&raw);
            proof {
                assert(read_spec(s@, p as int) == Some(
                    (e as int, Datum::Dict(assoc_all(entries_view(raw@)))),
                ));
            }
            return Some((e, Value::PersistentListMap(map)));
        } else {
            match read_form(src, q) {
                Some((q2, k)) => match read_form(src, q2) {
                    Some((q3, v)) => {
                        let ghost entry = (k@, v@);
                        proof {
                            crate::value::lemma_entries_view_push(raw@, MapEntry { key: k, val: v });
                            match read_entries(s@, q3 as int) {
                                Some((e, es)) => {
                                    assert(entries_view(raw@) + (seq![entry] + es) =~= entries_view(
                                        raw@,
                                    ).push(entry) + es);
                                },
                                None => {},
                            }
                        }
                        raw.push(MapEntry { key: k, val: v });
                        q = q3;
                    },
                    None => {
                        assert(read_entries(s@, q as int) is None);
                        return None;
                    },
                },
                None => {
                    assert(read_entries(s@, q as int) is None);
                    return None;
                },
            }
        }
    }
    None
}

/// The map that entries make when bound in order.
fn build_map(raw: &Vec<MapEntry>) -> (r: Vec<MapEntry>)
    ensures
        entries_view(r@) == assoc_all(entries_view(raw@)),
{
    let ghost pairs = entries_view(raw@);
    proof {
        crate::value::lemma_entries_view_len(raw@);
    }
    let mut map: Vec<MapEntry> = Vec::new();
    let mut i: usize = 0;
    while i < raw.len()
        invariant
            i <= raw@.len(),
            pairs == entries_view(raw@),
            pairs.len() == raw@.len(),
            entries_view(map@) == assoc_all(pairs.take(i as int)),
        decreases raw@.len() - i,
    {
        proof {
            crate::value::lemma_entries_view_index(raw@, i as int);
            assert(pairs.take(i + 1).drop_last() =~= pairs.take(i as int));
        }
        assoc(&mut map, raw[i].key.duplicate(), raw[i].val.duplicate());
        i = i + 1;
    }
    proof {
        assert(pairs.take(i as int) =~= pairs);
    }
    map
}

/// Reads a list after any whitespace at `p`; fails where the next character is not
/// `(`.
pub fn try_read_list(src: &Source, p: usize) -> (r: Option<(usize, Value)>)
    requires
        src.wf(),
        p <= src.chars.len(),
    ensures
        match r {
            Some((e, v)) => opens_at(src.chars@, p as int, '(') && read_spec(src.chars@, p as int)
                == Some((e as int, v@)) && p < e <= src.chars@.len(),
            None => !opens_at(src.chars@, p as int, '(') || read_spec(src.chars@, p as int) is None,
        },
{
    let q = skip_whitespace(&src.chars, p);
    if q >= src.chars.len() || src.chars[q] != '(' {
        return None;
    }
    proof {
        lemma_read_spec_skip(src.chars@, p as int);
    }
    list_at(src, q)
}

/// Reads a vector after any whitespace at `p`; fails where the next character is not
/// `[`.
pub fn try_read_vector(src: &Source, p: usize) -> (r: Option<(usize, Value)>)
    requires
        src.wf(),
        p <= src.chars.len(),
    ensures
        match r {
            Some((e, v)) => opens_at(src.chars@, p as int, '[') && read_spec(src.chars@, p as int)
                == Some((e as int, v@)) && p < e <= src.chars@.len(),
            None => !opens_at(src.chars@, p as int, '[') || read_spec(src.chars@, p as int) is None,
        },
{
    let q = skip_whitespace(&src.chars, p);
    if q >= src.chars.len() || src.chars[q] != '[' {
        return None;
    }
    proof {
        lemma_read_spec_skip(src.chars@, p as int);
    }
    vector_at(src, q)
}

/// Reads a map after any whitespace at `p`; fails where the next character is not
/// `{`.
pub fn try_read_map(src: &Source, p: usize) -> (r: Option<(usize, Value)>)
    requires
        src.wf(),
        p <= src.chars.len(),
    ensures
        match r {
            Some((e, v)) => opens_at(src.chars@, p as int, '{') && read_spec(src.chars@, p as int)
                == Some((e as int, v@)) && p < e <= src.chars@.len(),
            None => !opens_at(src.chars@, p as int, '{') || read_spec(src.chars@, p as int) is None,
        },
{
    let q = skip_whitespace(&src.chars, p);
    if q >= src.chars.len() || src.chars[q] != '{' {
        return None;
    }
    proof {
        lemma_read_spec_skip(src.chars@, p as int);
    }
    map_at(src, q)
}

/// Reads one form at `p`, after any whitespace.
pub fn read_form(src: &Source, p: usize) -> (r: Option<(usize, Value)>)
    requires
        src.wf(),
        p <= src.chars@.len(),
    ensures
        match r {
            Some((e, v)) => read_spec(src.chars@, p as int) == Some((e as int, v@)) && p < e
                <= src.chars@.len(),
            None => read_spec(src.chars@, p as int) is None,
        },
    decreases src.chars@.len() - p, 2int,
{
    let s = &src.chars;
    let mut q = p;
    while q < s.len() && ws_char(s[q])
        invariant
            p <= q <= s@.len(),
            s@ == src.chars@,
            read_spec(s@, q as int) == read_spec(s@, p as int),
        decreases s@.len() - q,
    {
        q = q + 1;
    }
    if q >= s.len() {
        return None;
    }
    let c = s[q];
    if c == '{' {
        map_at(src, q)
    } else if c == '"' {
        string_at(src, q)
    } else if ident_start_char(c) {
        try_read_symbol(src, q)
    } else if digit_char(c) {
        try_read_i32(src, q)
    } else if c == '(' {
        list_at(src, q)
    } else if c == '[' {
        vector_at(src, q)
    } else {
        None
    }
}

/// Reads the first form of `input`, and returns what follows it with the form.
pub fn try_read(input: &str) -> (r: Result<(&str, Value), ReadError>)
    ensures
        match r {
            Ok((rest, v)) => match read_spec(input@, 0) {
                Some((e, d)) => d == v@ && rest@ == input@.subrange(e, input@.len() as int),
                None => false,
            },
            Err(e) => read_spec(input@, 0) is None && e.position == skip_ws(input@, 0),
        },
{
    let src = Source::new(input);
    match read_form(&src, 0) {
        Some((e, v)) => Ok((input.substring_char(e, src.chars.len()), v)),
        None => Err(ReadError { position: skip_whitespace(&src.chars, 0) }),
    }
}

} // verus!
