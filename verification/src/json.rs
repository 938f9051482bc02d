//! The structural value tree that every parsed config file is reduced to.
//!
//! A `Json` is a JSON-like value: null, booleans, numbers (kept as their
//! decimal text plus an integrality flag), strings, arrays and objects.
//! Objects keep their entries in the order the document supplied them.
//! Its mathematical model is `JVal`, obtained through `View`.

use vstd::prelude::*;

use crate::text::{append_str, chars_of, digit_char, digit_char_exec, string_of};

verus! {

/// Mathematical model of a `Json` value.
pub enum JVal {
    Null,
    Bool(bool),
    /// Decimal text and whether the number is an integer.
    Num(Seq<char>, bool),
    Str(Seq<char>),
    Arr(Seq<JVal>),
    Obj(Seq<(Seq<char>, JVal)>),
}

/// A number, kept as the text it renders to.
#[derive(Debug, Clone, PartialEq, Eq)]
pub struct JsonNumber {
    pub text: String,
    pub is_integer: bool,
}

#[derive(Debug, PartialEq, Eq)]
pub struct JsonEntry {
    pub key: String,
    pub value: Json,
}

#[derive(Debug, PartialEq, Eq)]
pub enum Json {
    Null,
    Bool(bool),
    Number(JsonNumber),
    Str(String),
    Array(Vec<Json>),
    Object(Vec<JsonEntry>),
}

pub open spec fn view_list(v: Seq<Json>) -> Seq<JVal>
    decreases v,
{
    if v.len() == 0 {
        Seq::empty()
    } else {
        seq![json_view(v[0])] + view_list(v.drop_first())
    }
}

pub open spec fn view_entries(v: Seq<JsonEntry>) -> Seq<(Seq<char>, JVal)>
    decreases v,
{
    if v.len() == 0 {
        Seq::empty()
    } else {
        seq![(v[0].key@, json_view(v[0].value))] + view_entries(v.drop_first())
    }
}

pub open spec fn json_view(j: Json) -> JVal
    decreases j,
{
    match j {
        Json::Null => JVal::Null,
        Json::Bool(b) => JVal::Bool(b),
        Json::Number(n) => JVal::Num(n.text@, n.is_integer),
        Json::Str(s) => JVal::Str(s@),
        Json::Array(v) => JVal::Arr(view_list(v@)),
        Json::Object(v) => JVal::Obj(view_entries(v@)),
    }
}

impl View for Json {
    type V = JVal;

    open spec fn view(&self) -> JVal {
        json_view(*self)
    }
}

impl View for JsonEntry {
    type V = (Seq<char>, JVal);

    open spec fn view(&self) -> (Seq<char>, JVal) {
        (self.key@, json_view(self.value))
    }
}

pub broadcast proof fn lemma_view_list(s: Seq<Json>)
    ensures
        #[trigger] view_list(s).len() == s.len(),
        forall|i: int| 0 <= i < s.len() ==> #[trigger] view_list(s)[i] == json_view(s[i]),
    decreases s.len(),
{
    if s.len() > 0 {
        lemma_view_list(s.drop_first());
        assert forall|i: int| 0 <= i < s.len() implies #[trigger] view_list(s)[i] == json_view(
            s[i],
        ) by {
            if i > 0 {
                assert(s[i] == s.drop_first()[i - 1]);
            }
        }
    }
}

pub broadcast proof fn lemma_view_entries(s: Seq<JsonEntry>)
    ensures
        #[trigger] view_entries(s).len() == s.len(),
        forall|i: int| 0 <= i < s.len() ==> #[trigger] view_entries(s)[i] == s[i].view(),
    decreases s.len(),
{
    if s.len() > 0 {
        lemma_view_entries(s.drop_first());
        assert forall|i: int| 0 <= i < s.len() implies #[trigger] view_entries(s)[i]
            == s[i].view() by {
            if i > 0 {
                assert(s[i] == s.drop_first()[i - 1]);
            }
        }
    }
}

pub broadcast proof fn lemma_view_list_index(s: Seq<Json>, i: int)
    requires
        0 <= i < s.len(),
    ensures
        #[trigger] view_list(s)[i] == json_view(s[i]),
{
    lemma_view_list(s);
}

pub broadcast proof fn lemma_view_entries_index(s: Seq<JsonEntry>, i: int)
    requires
        0 <= i < s.len(),
    ensures
        #[trigger] view_entries(s)[i] == s[i].view(),
{
    lemma_view_entries(s);
}

pub broadcast group group_json_view {
    lemma_view_list,
    lemma_view_entries,
    lemma_view_list_index,
    lemma_view_entries_index,
}

pub open spec fn is_object(v: JVal) -> bool {
    v is Obj
}

pub open spec fn is_array(v: JVal) -> bool {
    v is Arr
}

/// A deep copy of `j`.
#[verifier::loop_isolation(false)]
pub fn json_clone(j: &Json) -> (res: Json)
    ensures
        res@ == j@,
    decreases j,
{
    broadcast use group_json_view;

    match j {
        Json::Null => Json::Null,
        Json::Bool(b) => Json::Bool(*b),
        Json::Number(n) => Json::Number(JsonNumber { text: n.text.clone(), is_integer: n.is_integer }),
        Json::Str(s) => Json::Str(s.clone()),
        Json::Array(v) => {
            let mut out: Vec<Json> = Vec::new();
            let mut i: usize = 0;
            while i < v.len()
                invariant
                    i <= v.len(),
                    out.len() == i,
                    forall|k: int| 0 <= k < i ==> (#[trigger] out@[k])@ == v@[k]@,
                decreases v.len() - i,
            {
                let c = json_clone(&v[i]);
                out.push(c);
                i = i + 1;
            }
            assert(view_list(out@) =~= view_list(v@));
            Json::Array(out)
        },
        Json::Object(v) => {
            let mut out: Vec<JsonEntry> = Vec::new();
            let mut i: usize = 0;
            while i < v.len()
                invariant
                    i <= v.len(),
                    out.len() == i,
                    forall|k: int| 0 <= k < i ==> (#[trigger] out@[k])@ == v@[k]@,
                decreases v.len() - i,
            {
                let c = json_clone(&v[i].value);
                out.push(JsonEntry { key: v[i].key.clone(), value: c });
                i = i + 1;
            }
            assert(view_entries(out@) =~= view_entries(v@));
            Json::Object(out)
        },
    }
}

impl Clone for Json {
    fn clone(&self) -> (res: Self)
        ensures
            res@ == self@,
    {
        json_clone(self)
    }
}

impl Clone for JsonEntry {
    fn clone(&self) -> (res: Self)
        ensures
            res@ == self@,
    {
        JsonEntry { key: self.key.clone(), value: json_clone(&self.value) }
    }
}

/// Structural equality of two values.
#[verifier::loop_isolation(false)]
pub fn json_eq(a: &Json, b: &Json) -> (res: bool)
    ensures
        res == (a@ == b@),
    decreases a,
{
    broadcast use group_json_view;

    match (a, b) {
        (Json::Null, Json::Null) => true,
        (Json::Bool(x), Json::Bool(y)) => *x == *y,
        (Json::Number(x), Json::Number(y)) => x.text == y.text && x.is_integer == y.is_integer,
        (Json::Str(x), Json::Str(y)) => *x == *y,
        (Json::Array(x), Json::Array(y)) => {
            proof {
                lemma_view_list(x@);
                lemma_view_list(y@);
            }
            if x.len() != y.len() {
                assert(view_list(x@).len() != view_list(y@).len());
                return false;
            }
            let mut i: usize = 0;
            while i < x.len()
                invariant
                    i <= x.len(),
                    x.len() == y.len(),
                    forall|k: int| 0 <= k < i ==> (#[trigger] x@[k])@ == y@[k]@,
                decreases x.len() - i,
            {
                if !json_eq(&x[i], &y[i]) {
                    assert(view_list(x@)[i as int] != view_list(y@)[i as int]);
                    return false;
                }
                i = i + 1;
            }
            assert(view_list(x@) =~= view_list(y@));
            true
        },
        (Json::Object(x), Json::Object(y)) => {
            proof {
                lemma_view_entries(x@);
                lemma_view_entries(y@);
            }
            if x.len() != y.len() {
                assert(view_entries(x@).len() != view_entries(y@).len());
                return false;
            }
            let mut i: usize = 0;
            while i < x.len()
                invariant
                    i <= x.len(),
                    x.len() == y.len(),
                    forall|k: int| 0 <= k < i ==> (#[trigger] x@[k])@ == y@[k]@,
                decreases x.len() - i,
            {
                if x[i].key != y[i].key {
                    assert(view_entries(x@)[i as int] != view_entries(y@)[i as int]);
                    return false;
                }
                if !json_eq(&x[i].value, &y[i].value) {
                    assert(view_entries(x@)[i as int] != view_entries(y@)[i as int]);
                    return false;
                }
                i = i + 1;
            }
            assert(view_entries(x@) =~= view_entries(y@));
            true
        },
        _ => false,
    }
}

// ---------------------------------------------------------------------------
// Compact text rendering (the `{"k":v,...}` form, with JSON string escapes)
// ---------------------------------------------------------------------------

pub open spec fn hex_digit(d: nat) -> char {
    if d < 10 {
        digit_char(d)
    } else if d == 10 {
        'a'
    } else if d == 11 {
        'b'
    } else if d == 12 {
        'c'
    } else if d == 13 {
        'd'
    } else if d == 14 {
        'e'
    } else {
        'f'
    }
}

/// The escape sequence written for one character of a string.
pub open spec fn escape_char(c: char) -> Seq<char> {
    if c == '"' {
        seq!['\\', '"']
    } else if c == '\\' {
        seq!['\\', '\\']
    } else if c == '\n' {
        seq!['\\', 'n']
    } else if c == '\r' {
        seq!['\\', 'r']
    } else if c == '\t' {
        seq!['\\', 't']
    } else if c == '\x08' {
        seq!['\\', 'b']
    } else if c == '\x0c' {
        seq!['\\', 'f']
    } else if (c as u32) < 0x20 {
        seq!['\\', 'u', '0', '0', hex_digit((c as u32 / 16) as nat), hex_digit((c as u32 % 16) as nat)]
    } else {
        seq![c]
    }
}

pub open spec fn escaped(s: Seq<char>) -> Seq<char>
    decreases s.len(),
{
    if s.len() == 0 {
        Seq::empty()
    } else {
        escaped(s.drop_last()) + escape_char(s.last())
    }
}

/// A string literal: quotes around the escaped characters.
pub open spec fn quoted(s: Seq<char>) -> Seq<char> {
    seq!['"'] + escaped(s) + seq!['"']
}

pub open spec fn null_text() -> Seq<char> {
    seq!['n', 'u', 'l', 'l']
}

pub open spec fn bool_text(b: bool) -> Seq<char> {
    if b {
        seq!['t', 'r', 'u', 'e']
    } else {
        seq!['f', 'a', 'l', 's', 'e']
    }
}

pub open spec fn json_text(v: JVal) -> Seq<char>
    decreases v,
{
    match v {
        JVal::Null => null_text(),
        JVal::Bool(b) => bool_text(b),
        JVal::Num(t, _) => t,
        JVal::Str(s) => quoted(s),
        JVal::Arr(xs) => seq!['['] + items_text(xs) + seq![']'],
        JVal::Obj(es) => seq!['{'] + entries_text(es) + seq!['}'],
    }
}

pub open spec fn items_text(xs: Seq<JVal>) -> Seq<char>
    decreases xs,
{
    if xs.len() == 0 {
        Seq::empty()
    } else if xs.len() == 1 {
        json_text(xs[0])
    } else {
        items_text(xs.drop_last()) + seq![','] + json_text(xs[xs.len() - 1])
    }
}

pub open spec fn entries_text(es: Seq<(Seq<char>, JVal)>) -> Seq<char>
    decreases es,
{
    if es.len() == 0 {
        Seq::empty()
    } else if es.len() == 1 {
        quoted(es[0].0) + seq![':'] + json_text(es[0].1)
    } else {
        entries_text(es.drop_last()) + seq![','] + quoted(es[es.len() - 1].0) + seq![':']
            + json_text(es[es.len() - 1].1)
    }
}

fn hex_digit_exec(d: u32) -> (c: char)
    requires
        d < 16,
    ensures
        c == hex_digit(d as nat),
{
    if d < 10 {
        digit_char_exec(d as usize)
    } else if d == 10 {
        'a'
    } else if d == 11 {
        'b'
    } else if d == 12 {
        'c'
    } else if d == 13 {
        'd'
    } else if d == 14 {
        'e'
    } else {
        'f'
    }
}

fn push_escaped_char(out: &mut Vec<char>, c: char)
    ensures
        final(out)@ == old(out)@ + escape_char(c),
{
    let ghost start = out@;
    if c == '"' {
        out.push('\\');
        out.push('"');
    } else if c == '\\' {
        out.push('\\');
        out.push('\\');
    } else if c == '\n' {
        out.push('\\');
        out.push('n');
    } else if c == '\r' {
        out.push('\\');
        out.push('r');
    } else if c == '\t' {
        out.push('\\');
        out.push('t');
    } else if c == '\x08' {
        out.push('\\');
        out.push('b');
    } else if c == '\x0c' {
        out.push('\\');
        out.push('f');
    } else if (c as u32) < 0x20 {
        out.push('\\');
        out.push('u');
        out.push('0');
        out.push('0');
        out.push(hex_digit_exec(c as u32 / 16));
        out.push(hex_digit_exec(c as u32 % 16));
    } else {
        out.push(c);
    }
    assert(out@ =~= start + escape_char(c));
}

/// Appends the quoted, escaped form of `s` to `out`.
pub fn push_quoted(out: &mut Vec<char>, s: &Vec<char>)
    ensures
        final(out)@ == old(out)@ + quoted(s@),
{
    let ghost start = out@;
    out.push('"');
    let mut i: usize = 0;
    while i < s.len()
        invariant
            i <= s.len(),
            out@ == start + seq!['"'] + escaped(s@.take(i as int)),
        decreases s.len() - i,
    {
        push_escaped_char(out, s[i]);
        assert(s@.take(i + 1).drop_last() =~= s@.take(i as int));
        i = i + 1;
    }
    assert(s@.take(s.len() as int) =~= s@);
    out.push('"');
    assert(out@ =~= start + quoted(s@));
}

fn push_lit(out: &mut Vec<char>, s: &str)
    ensures
        final(out)@ == old(out)@ + s@,
{
    append_str(out, s);
}

/// Appends the compact text of `j` to `out`.
pub fn render_into(j: &Json, out: &mut Vec<char>)
    ensures
        final(out)@ == old(out)@ + json_text(j@),
    decreases j,
{
    let ghost start = out@;
    match j {
        Json::Null => {
            out.push('n');
            out.push('u');
            out.push('l');
            out.push('l');
            assert(out@ =~= start + json_text(j@));
        },
        Json::Bool(b) => {
            if *b {
                out.push('t');
                out.push('r');
                out.push('u');
                out.push('e');
            } else {
                out.push('f');
                out.push('a');
                out.push('l');
                out.push('s');
                out.push('e');
            }
            assert(out@ =~= start + json_text(j@));
        },
        Json::Number(n) => {
            append_str(out, n.text.as_str());
        },
        Json::Str(s) => {
            let cs = chars_of(s.as_str());
            push_quoted(out, &cs);
        },
        Json::Array(v) => {
            out.push('[');
            render_items(v, out);
            out.push(']');
            assert(out@ =~= start + json_text(j@));
        },
        Json::Object(v) => {
            out.push('{');
            render_entries(v, out);
            out.push('}');
            assert(out@ =~= start + json_text(j@));
        },
    }
}

fn render_items(v: &Vec<Json>, out: &mut Vec<char>)
    ensures
        final(out)@ == old(out)@ + items_text(view_list(v@)),
    decreases v,
{
    proof {
        lemma_view_list(v@);
    }
    let ghost start = out@;
    let ghost xs = view_list(v@);
    let mut i: usize = 0;
    while i < v.len()
        invariant
            i <= v.len(),
            xs == view_list(v@),
            xs.len() == v.len(),
            forall|k: int| 0 <= k < v.len() ==> #[trigger] xs[k] == v@[k]@,
            out@ == start + items_text(xs.take(i as int)),
        decreases v.len() - i,
    {
        if i > 0 {
            out.push(',');
        }
        render_into(&v[i], out);
        assert(xs.take(i + 1).drop_last() =~= xs.take(i as int));
        assert(xs.take(i + 1)[i as int] == xs[i as int]);
        assert(out@ =~= start + items_text(xs.take(i + 1)));
        i = i + 1;
    }
    assert(xs.take(v.len() as int) =~= xs);
}

fn render_entries(v: &Vec<JsonEntry>, out: &mut Vec<char>)
    ensures
        final(out)@ == old(out)@ + entries_text(view_entries(v@)),
    decreases v,
{
    proof {
        lemma_view_entries(v@);
    }
    let ghost start = out@;
    let ghost es = view_entries(v@);
    let mut i: usize = 0;
    while i < v.len()
        invariant
            i <= v.len(),
            es == view_entries(v@),
            es.len() == v.len(),
            forall|k: int| 0 <= k < v.len() ==> #[trigger] es[k] == v@[k]@,
            out@ == start + entries_text(es.take(i as int)),
        decreases v.len() - i,
    {
        if i > 0 {
            out.push(',');
        }
        let k = chars_of(v[i].key.as_str());
        push_quoted(out, &k);
        out.push(':');
        render_into(&v[i].value, out);
        assert(es.take(i + 1).drop_last() =~= es.take(i as int));
        assert(es.take(i + 1)[i as int] == es[i as int]);
        assert(out@ =~= start + entries_text(es.take(i + 1)));
        i = i + 1;
    }
    assert(es.take(v.len() as int) =~= es);
}

/// The compact text of `j`.
pub fn render_compact(j: &Json) -> (res: Vec<char>)
    ensures
        res@ == json_text(j@),
{
    broadcast use group_json_view;

    let mut out: Vec<char> = Vec::new();
    render_into(j, &mut out);
    assert(out@ =~= json_text(j@));
    out
}

/// The compact text of `j`, as a `String`.
pub fn to_text(j: &Json) -> (res: String)
    ensures
        res@ == json_text(j@),
{
    let v = render_compact(j);
    string_of(&v)
}

/// The rendered form of a scalar: strings as themselves, numbers and
/// booleans as their text; `None` for null, arrays and objects.
pub open spec fn scalar_text(v: JVal) -> Option<Seq<char>> {
    match v {
        JVal::Str(s) => Some(s),
        JVal::Num(t, _) => Some(t),
        JVal::Bool(b) => Some(bool_text(b)),
        _ => None,
    }
}

pub fn render_scalar(j: &Json) -> (res: Option<Vec<char>>)
    ensures
        match res {
            Some(t) => scalar_text(j@) == Some(t@),
            None => scalar_text(j@) is None,
        },
{
    match j {
        Json::Str(s) => Some(chars_of(s.as_str())),
        Json::Number(n) => Some(chars_of(n.text.as_str())),
        Json::Bool(b) => {
            let mut out: Vec<char> = Vec::new();
            render_into(j, &mut out);
            assert(out@ =~= bool_text(*b));
            Some(out)
        },
        _ => None,
    }
}

} // verus!
