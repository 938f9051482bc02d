//! Parsing and representation of search terms.
//!
//! Grammar (informal):
//!
//! ```text
//!   term     := [scope ":"] values
//!   scope    := identifier            // substring against tracked-path pattern
//!   values   := value ("|" value)*
//!   value    := bare_word | quoted
//!   quoted   := '"' <any except unescaped "> '"'
//! ```
//!
//! The scope, if present, restricts which files this term is evaluated
//! against (by substring match on the tracked-path pattern). The values
//! form a disjunction: any of them matching counts as the term matching.
//!
//! Terms are combined with implicit AND at the repo level: a repo
//! matches the full query iff every term is satisfied by at least one
//! of its files.

use vstd::prelude::*;
use vstd::utf8::encode_utf8;

use crate::address::{quoted_string, strings_view};
use crate::json::quoted;
use crate::match_pred::{scope_applies, unquoted_colon};
use crate::text::{append, append_str, chars_of, has_char, has_char_exec, has_sub, slice, string_of};

verus! {

/// Model of a term.
pub struct TermV {
    pub scope: Option<Seq<char>>,
    pub needles: Seq<Seq<char>>,
    pub raw: Seq<char>,
}

/// A parsed search term.
#[derive(Debug, Clone)]
pub struct Term {
    /// Optional scope: matches files whose tracked-path pattern contains
    /// this string as a substring.
    pub scope: Option<String>,
    /// Needles: at least one must match.
    pub needles: Vec<String>,
    /// Original textual form, for display.
    pub raw: String,
}

impl View for Term {
    type V = TermV;

    open spec fn view(&self) -> TermV {
        TermV {
            scope: match self.scope {
                Some(s) => Some(s@),
                None => None,
            },
            needles: strings_view(self.needles@),
            raw: self.raw@,
        }
    }
}

/// Why a term failed to parse.
#[derive(Debug, Clone, PartialEq, Eq)]
pub enum TermError {
    /// A `|` with nothing before it.
    StrayBar,
    /// A `"` that is never closed.
    UnterminatedQuote,
    /// No value at all.
    EmptyValue { input: String },
}

/// A failure of the value part.
pub enum ValuesErr {
    StrayBar,
    UnterminatedQuote,
}

/// Model of a parse failure; an empty value always names the whole input.
pub enum TermErrV {
    StrayBar,
    UnterminatedQuote,
    EmptyValue,
}

impl TermError {
    /// The error's text.
    pub fn message(&self) -> (res: String)
        ensures
            res@ == match self {
                TermError::StrayBar => "empty alternative in term (stray `|`)"@,
                TermError::UnterminatedQuote => "unterminated quoted value"@,
                TermError::EmptyValue { input } => "empty value in term: "@ + quoted(input@),
            },
    {
        let mut out: Vec<char> = Vec::new();
        match self {
            TermError::StrayBar => {
                append_str(&mut out, "empty alternative in term (stray `|`)");
            },
            TermError::UnterminatedQuote => {
                append_str(&mut out, "unterminated quoted value");
            },
            TermError::EmptyValue { input } => {
                append_str(&mut out, "empty value in term: ");
                let q = quoted_string(&chars_of(input.as_str()));
                append(&mut out, &q);
            },
        }
        string_of(&out)
    }
}

/// The scope before the first unquoted `:` (unless it is empty or holds a
/// `|`) and the value part.
pub open spec fn term_split_scope(s: Seq<char>) -> (Option<Seq<char>>, Seq<char>) {
    match unquoted_colon(s, 0, false) {
        None => (None, s),
        Some(i) => if s.take(i).len() == 0 || has_char(s.take(i), '|') {
            (None, s)
        } else {
            (Some(s.take(i)), s.skip(i + 1))
        },
    }
}

/// The values read from position `i` on, given the values `out` already
/// complete, the value `cur` being built, whether `i` is inside quotes and
/// whether the last character read was a `|` that ended a value. Quotes
/// delimit but are not kept; inside quotes `\"` and `\\` stand for the
/// escaped character; an unquoted `|` ends a value, and must have a value
/// before it and after it.
pub open spec fn values_from(s: Seq<char>, i: int, out: Seq<Seq<char>>, cur: Seq<char>, inq: bool, bar: bool) -> Result<
    Seq<Seq<char>>,
    ValuesErr,
>
    decreases s.len() - i,
{
    if i < 0 || i >= s.len() {
        if inq {
            Err(ValuesErr::UnterminatedQuote)
        } else if bar {
            Err(ValuesErr::StrayBar)
        } else if cur.len() > 0 {
            Ok(out.push(cur))
        } else {
            Ok(out)
        }
    } else if s[i] == '"' {
        values_from(s, i + 1, out, cur, !inq, false)
    } else if s[i] == '|' && !inq {
        if cur.len() == 0 {
            Err(ValuesErr::StrayBar)
        } else {
            values_from(s, i + 1, out.push(cur), Seq::empty(), inq, true)
        }
    } else if s[i] == '\\' && inq && i + 1 < s.len() && (s[i + 1] == '"' || s[i + 1] == '\\') {
        values_from(s, i + 2, out, cur.push(s[i + 1]), inq, false)
    } else {
        values_from(s, i + 1, out, cur.push(s[i]), inq, false)
    }
}

pub open spec fn parse_values_spec(s: Seq<char>) -> Result<Seq<Seq<char>>, ValuesErr> {
    values_from(s, 0, Seq::empty(), Seq::empty(), false, false)
}

/// What parsing a whole term yields.
pub open spec fn parse_term(input: Seq<char>) -> Result<TermV, TermErrV> {
    let (scope, rest) = term_split_scope(input);
    match parse_values_spec(rest) {
        Err(ValuesErr::StrayBar) => Err(TermErrV::StrayBar),
        Err(ValuesErr::UnterminatedQuote) => Err(TermErrV::UnterminatedQuote),
        Ok(needles) => if needles.len() == 0 {
            Err(TermErrV::EmptyValue)
        } else {
            Ok(TermV { scope, needles, raw: input })
        },
    }
}

/// Split an input on the first unquoted `:` to get `(scope, rest)`. If
/// there's no usable scope, scope is `None` and rest is the whole input.
pub fn split_scope(input: &Vec<char>) -> (res: (Option<Vec<char>>, Vec<char>))
    ensures
        (crate::match_pred::opt_vec_chars(res.0), res.1@) == term_split_scope(input@),
{
    let mut in_quotes = false;
    let mut i: usize = 0;
    while i < input.len()
        invariant
            i <= input.len(),
            unquoted_colon(input@, 0, false) == unquoted_colon(input@, i as int, in_quotes),
        decreases input.len() - i,
    {
        let c = input[i];
        if c == '"' {
            in_quotes = !in_quotes;
        } else if c == ':' && !in_quotes {
            let scope = slice(input, 0, i);
            assert(scope@ =~= input@.take(i as int));
            if scope.len() == 0 || has_char_exec(&scope, '|') {
                return (None, slice(input, 0, input.len()));
            }
            let rest = slice(input, i + 1, input.len());
            assert(rest@ =~= input@.skip(i + 1));
            return (Some(scope), rest);
        }
        i = i + 1;
    }
    let all = slice(input, 0, input.len());
    assert(all@ =~= input@);
    (None, all)
}

/// Parse the value part: one or more `|`-separated values, each either
/// bare or double-quoted.
pub fn parse_values(input: &Vec<char>) -> (res: Result<Vec<String>, ValuesErr>)
    ensures
        match parse_values_spec(input@) {
            Ok(vs) => res matches Ok(v) && strings_view(v@) == vs,
            Err(ValuesErr::StrayBar) => res matches Err(ValuesErr::StrayBar),
            Err(ValuesErr::UnterminatedQuote) => res matches Err(ValuesErr::UnterminatedQuote),
        },
{
    let mut out: Vec<String> = Vec::new();
    let mut cur: Vec<char> = Vec::new();
    let mut in_quotes = false;
    let mut after_bar = false;
    let mut i: usize = 0;
    assert(strings_view(out@) =~= Seq::<Seq<char>>::empty());
    assert(cur@ =~= Seq::<char>::empty());
    while i < input.len()
        invariant
            i <= input.len(),
            parse_values_spec(input@) == values_from(
                input@,
                i as int,
                strings_view(out@),
                cur@,
                in_quotes,
                after_bar,
            ),
        decreases input.len() - i,
    {
        let c = input[i];
        if c == '"' {
            in_quotes = !in_quotes;
            after_bar = false;
            i = i + 1;
        } else if c == '|' && !in_quotes {
            if cur.len() == 0 {
                return Err(ValuesErr::StrayBar);
            }
            let ghost before = strings_view(out@);
            out.push(string_of(&cur));
            assert(strings_view(out@) =~= before.push(cur@));
            cur = Vec::new();
            after_bar = true;
            i = i + 1;
        } else if c == '\\' && in_quotes && i + 1 < input.len() && (input[i + 1] == '"' || input[i
            + 1] == '\\') {
            cur.push(input[i + 1]);
            after_bar = false;
            i = i + 2;
        } else {
            cur.push(c);
            after_bar = false;
            i = i + 1;
        }
    }
    if in_quotes {
        return Err(ValuesErr::UnterminatedQuote);
    }
    if after_bar {
        return Err(ValuesErr::StrayBar);
    }
    if cur.len() > 0 {
        let ghost before = strings_view(out@);
        out.push(string_of(&cur));
        assert(strings_view(out@) =~= before.push(cur@));
    }
    Ok(out)
}

// ---------------------------------------------------------------------------
// Byte search
// ---------------------------------------------------------------------------

/// ASCII lowercase of a byte; other bytes are unchanged.
pub open spec fn ascii_lower(b: u8) -> u8 {
    if 65 <= b <= 90 {
        (b + 32) as u8
    } else {
        b
    }
}

/// The bytes of `h` at `i` equal `n`, up to ASCII case when `ic`.
pub open spec fn bytes_at(h: Seq<u8>, n: Seq<u8>, i: int, ic: bool) -> bool {
    0 <= i && i + n.len() <= h.len() && forall|k: int|
        0 <= k < n.len() ==> if ic {
            ascii_lower(#[trigger] h[i + k]) == ascii_lower(n[k])
        } else {
            h[i + k] == n[k]
        }
}

/// `n` occurs in `h` (up to ASCII case when `ic`); the empty needle
/// occurs in everything.
pub open spec fn bytes_contain(h: Seq<u8>, n: Seq<u8>, ic: bool) -> bool {
    n.len() == 0 || exists|i: int| bytes_at(h, n, i, ic)
}

fn lower_byte(b: u8) -> (res: u8)
    ensures
        res == ascii_lower(b),
{
    if 65 <= b && b <= 90 {
        b + 32
    } else {
        b
    }
}

/// Substring search over raw bytes. For ignore-case, a cheap ASCII-only
/// lowercase is applied; non-ASCII bytes pass through unchanged.
pub fn contains(haystack: &[u8], needle: &[u8], ignore_case: bool) -> (res: bool)
    ensures
        res == bytes_contain(haystack@, needle@, ignore_case),
{
    if needle.len() == 0 {
        return true;
    }
    if needle.len() > haystack.len() {
        assert forall|i: int| !bytes_at(haystack@, needle@, i, ignore_case) by {}
        return false;
    }
    let last = haystack.len() - needle.len();
    let mut i: usize = 0;
    while i <= last
        invariant
            needle.len() > 0,
            last == haystack.len() - needle.len(),
            i <= last + 1,
            forall|j: int| 0 <= j < i ==> !bytes_at(haystack@, needle@, j, ignore_case),
        decreases last + 1 - i,
    {
        let mut k: usize = 0;
        let mut ok = true;
        while k < needle.len()
            invariant
                i <= last,
                last == haystack.len() - needle.len(),
                k <= needle.len(),
                ok ==> forall|m: int|
                    0 <= m < k ==> if ignore_case {
                        ascii_lower(#[trigger] haystack@[i + m]) == ascii_lower(needle@[m])
                    } else {
                        haystack@[i + m] == needle@[m]
                    },
                !ok ==> !bytes_at(haystack@, needle@, i as int, ignore_case),
            decreases needle.len() - k,
        {
            let a = haystack[i + k];
            let b = needle[k];
            let same = if ignore_case {
                lower_byte(a) == lower_byte(b)
            } else {
                a == b
            };
            if !same {
                ok = false;
                assert(!bytes_at(haystack@, needle@, i as int, ignore_case)) by {
                    assert(haystack@[i + k as int] == a);
                }
                k = needle.len();
            } else {
                k = k + 1;
            }
        }
        if ok {
            assert(bytes_at(haystack@, needle@, i as int, ignore_case));
            return true;
        }
        i = i + 1;
    }
    assert forall|j: int| !bytes_at(haystack@, needle@, j, ignore_case) by {
        if 0 <= j && j + needle.len() <= haystack.len() {
            assert(j < i);
        }
    }
    false
}

/// The first of the needles, from position `i` on, that occurs in `h`.
pub open spec fn first_hit_from(needles: Seq<Seq<char>>, h: Seq<u8>, ic: bool, i: int) -> Option<int>
    decreases needles.len() - i,
{
    if i < 0 || i >= needles.len() {
        None
    } else if bytes_contain(h, encode_utf8(needles[i]), ic) {
        Some(i)
    } else {
        first_hit_from(needles, h, ic, i + 1)
    }
}

impl Term {
    /// Parse a term.
    pub fn parse(input: &str) -> (res: Result<Term, TermError>)
        ensures
            match parse_term(input@) {
                Ok(t) => res matches Ok(term) && term@ == t,
                Err(TermErrV::EmptyValue) => res matches Err(TermError::EmptyValue { input: i })
                    && i@ == input@,
                Err(TermErrV::StrayBar) => res matches Err(TermError::StrayBar),
                Err(TermErrV::UnterminatedQuote) => res matches Err(TermError::UnterminatedQuote),
            },
    {
        let s = chars_of(input);
        let (scope, value_part) = split_scope(&s);
        let needles = match parse_values(&value_part) {
            Ok(v) => v,
            Err(ValuesErr::StrayBar) => {
                return Err(TermError::StrayBar);
            },
            Err(ValuesErr::UnterminatedQuote) => {
                return Err(TermError::UnterminatedQuote);
            },
        };
        if needles.len() == 0 {
            return Err(TermError::EmptyValue { input: input.to_owned() });
        }
        let scope_s: Option<String> = match scope {
            Some(v) => Some(string_of(&v)),
            None => None,
        };
        Ok(Term { scope: scope_s, needles, raw: input.to_owned() })
    }

    /// Does this term's scope match the given tracked-path pattern?
    pub fn applies_to_pattern(&self, pattern: &str) -> (res: bool)
        ensures
            res == scope_applies(self@.scope, pattern@),
    {
        match &self.scope {
            None => true,
            Some(s) => has_sub(&chars_of(pattern), &chars_of(s.as_str())),
        }
    }

    /// The first needle that occurs in `haystack` (its UTF-8 bytes, up to
    /// ASCII case when `ignore_case`).
    pub fn matches_content(&self, haystack: &[u8], ignore_case: bool) -> (res: Option<&str>)
        ensures
            match first_hit_from(self@.needles, haystack@, ignore_case, 0) {
                Some(j) => res matches Some(s) && s@ == self@.needles[j],
                None => res is None,
            },
    {
        let mut i: usize = 0;
        while i < self.needles.len()
            invariant
                i <= self.needles.len(),
                first_hit_from(self@.needles, haystack@, ignore_case, 0) == first_hit_from(
                    self@.needles,
                    haystack@,
                    ignore_case,
                    i as int,
                ),
            decreases self.needles.len() - i,
        {
            let n = self.needles[i].as_str();
            if contains(haystack, n.as_bytes(), ignore_case) {
                return Some(n);
            }
            i = i + 1;
        }
        None
    }

    /// The term as written.
    pub fn display(&self) -> (res: String)
        ensures
            res@ == self.raw@,
    {
        self.raw.clone()
    }
}

} // verus!
