//! Structural match predicates over a parsed tree.
//!
//! A predicate has the form:
//!
//! ```text
//!   [scope:] [!] path [op literal]
//! ```
//!
//! Operators:
//!
//! ```text
//!   =   exact string equality against the scalar's rendered form
//!   !=  negated exact equality
//!   ^=  starts-with
//!   $=  ends-with
//!   *=  contains (substring)
//! ```
//!
//! A predicate with no operator is a *presence* predicate: it matches
//! at addresses where the path resolves to at least one value. A
//! presence predicate prefixed with `!` is an *absence* predicate: it
//! matches at anchor addresses where the path resolves to zero values.
//!
//! Paths use the same dot/bracket syntax as tree addresses elsewhere.
//! `[]` is a wildcard over array elements.
//!
//! The emitted address is the concrete scalar's address for binary ops and
//! presence, and the anchor's address for absence.

use vstd::prelude::*;

use crate::address::{
    SegV, ScanError, concrete, container_addrs, find_addresses_all_objects, find_container_addresses, join_key,
    object_addrs, lemma_object_spellable,
    lemma_address_round_trip, lemma_render_nonempty, lemma_walk_concat,
    lemma_walk_plain, lemma_walk_rel_hits, parse_address, parse_segments, plain_key, plain_keys,
    render_address, renderable, resolve_rel_path, resolve_rel_path_spec, spellable, strings_view,
    subtree_at, subtree_at_spec, walk_rel, walk_segs,
};
use crate::json::{JVal, Json, group_json_view, quoted, render_scalar, scalar_text};
use crate::text::{
    append, append_str, chars_eq, chars_of, contains_sub, decimal, ends_with, has_char, has_char_exec,
    is_ws, lead_ws, trail_ws,
    has_prefix, has_sub, has_suffix, slice, starts_with, string_of, trim, trim_exec, trim_start,
    trim_start_exec,
};
use crate::address::quoted_string;

verus! {

broadcast use group_json_view;

/// The comparison a predicate performs.
#[derive(Debug, Clone, Copy, PartialEq, Eq, Structural)]
pub enum Op {
    /// Exact string equality against the scalar's rendered form.
    Eq,
    /// Negated exact equality.
    NotEq,
    /// Starts-with match against the scalar's rendered form.
    StartsWith,
    /// Ends-with match against the scalar's rendered form.
    EndsWith,
    /// Substring match against the scalar's rendered form.
    Contains,
    /// Presence: path resolves to at least one value.
    Present,
    /// Absence: path resolves to zero values.
    Absent,
}

/// The source text of an operator; empty for presence and absence, which
/// are written without an infix operator.
pub open spec fn op_text(op: Op) -> Seq<char> {
    match op {
        Op::Eq => "="@,
        Op::NotEq => "!="@,
        Op::StartsWith => "^="@,
        Op::EndsWith => "$="@,
        Op::Contains => "*="@,
        Op::Present => ""@,
        Op::Absent => ""@,
    }
}

pub open spec fn op_is_binary(op: Op) -> bool {
    !(op is Present || op is Absent)
}

impl Op {
    /// Render as the source text the parser accepts. `Present`/`Absent`
    /// render as the empty string.
    pub fn as_str(self) -> (res: &'static str)
        ensures
            res@ == op_text(self),
    {
        match self {
            Op::Eq => "=",
            Op::NotEq => "!=",
            Op::StartsWith => "^=",
            Op::EndsWith => "$=",
            Op::Contains => "*=",
            Op::Present => "",
            Op::Absent => "",
        }
    }

    /// Does this op take a literal operand?
    pub fn is_binary(self) -> (res: bool)
        ensures
            res == op_is_binary(self),
    {
        match self {
            Op::Present => false,
            Op::Absent => false,
            _ => true,
        }
    }
}

/// Model of a predicate.
pub struct PredV {
    pub scope: Option<Seq<char>>,
    pub rel_path: Seq<char>,
    pub op: Op,
    pub literal: Seq<char>,
    pub raw: Seq<char>,
}

/// A parsed `--match` predicate.
#[derive(Debug, Clone)]
pub struct MatchPredicate {
    /// Optional scope restricting which tracked-path patterns this
    /// predicate applies to.
    pub scope: Option<String>,
    /// Relative path from a candidate anchor address to the value being
    /// tested. Never empty.
    pub rel_path: String,
    pub op: Op,
    pub literal: String,
    /// Original text, for display.
    pub raw: String,
}

pub open spec fn opt_chars(o: Option<String>) -> Option<Seq<char>> {
    match o {
        Some(s) => Some(s@),
        None => None,
    }
}

impl View for MatchPredicate {
    type V = PredV;

    open spec fn view(&self) -> PredV {
        PredV {
            scope: opt_chars(self.scope),
            rel_path: self.rel_path@,
            op: self.op,
            literal: self.literal@,
            raw: self.raw@,
        }
    }
}

/// Why a predicate failed to parse.
#[derive(Debug, Clone, PartialEq, Eq)]
pub enum MatchPredicateError {
    /// `!path` followed by an operator.
    OperatorOnAbsence { op: Op, input: String },
    /// Nothing left for the path.
    EmptyPath { input: String },
}

/// Model of a parse failure; the offending input is always the whole input.
pub enum PredErrV {
    OperatorOnAbsence(Op),
    EmptyPath,
}

impl MatchPredicateError {
    pub open spec fn message_spec(&self) -> Seq<char> {
        match self {
            MatchPredicateError::OperatorOnAbsence { op, input } =>
                "absence predicate `!path` takes no operator (got "@ + op_text(*op) + "): "@
                + quoted(input@),
            MatchPredicateError::EmptyPath { input } => "match predicate has empty path: "@
                + quoted(input@),
        }
    }

    /// The error's text.
    pub fn message(&self) -> (res: String)
        ensures
            res@ == self.message_spec(),
            res@ == match self {
                MatchPredicateError::OperatorOnAbsence { op, input } =>
                    "absence predicate `!path` takes no operator (got "@ + op_text(*op) + "): "@
                    + quoted(input@),
                MatchPredicateError::EmptyPath { input } => "match predicate has empty path: "@
                    + quoted(input@),
            },
    {
        let mut out: Vec<char> = Vec::new();
        match self {
            MatchPredicateError::OperatorOnAbsence { op, input } => {
                append_str(&mut out, "absence predicate `!path` takes no operator (got ");
                append_str(&mut out, op.as_str());
                append_str(&mut out, "): ");
                let q = quoted_string(&chars_of(input.as_str()));
                append(&mut out, &q);
            },
            MatchPredicateError::EmptyPath { input } => {
                append_str(&mut out, "match predicate has empty path: ");
                let q = quoted_string(&chars_of(input.as_str()));
                append(&mut out, &q);
            },
        }
        string_of(&out)
    }
}

// ---------------------------------------------------------------------------
// Grammar
// ---------------------------------------------------------------------------

/// Position of the first `:` at or after `i` that lies outside double
/// quotes, where `inq` says whether position `i` is inside quotes.
pub open spec fn unquoted_colon(s: Seq<char>, i: int, inq: bool) -> Option<int>
    decreases s.len() - i,
{
    if i < 0 || i >= s.len() {
        None
    } else if s[i] == '"' {
        unquoted_colon(s, i + 1, !inq)
    } else if s[i] == ':' && !inq {
        Some(i)
    } else {
        unquoted_colon(s, i + 1, inq)
    }
}

/// A scope may not hold any operator character.
pub open spec fn bad_scope(scope: Seq<char>) -> bool {
    scope.len() == 0 || has_char(scope, '=') || has_char(scope, '!') || has_char(scope, '^')
        || has_char(scope, '$') || has_char(scope, '*')
}

/// The scope before the first unquoted `:` (when it is a valid scope) and
/// the rest of the input.
pub open spec fn split_scope_spec(s: Seq<char>) -> (Option<Seq<char>>, Seq<char>) {
    match unquoted_colon(s, 0, false) {
        None => (None, s),
        Some(i) => if bad_scope(s.take(i)) {
            (None, s)
        } else {
            (Some(s.take(i)), s.skip(i + 1))
        },
    }
}

/// The two-character operator that `c` starts when followed by `=`.
pub open spec fn two_char_op(c: char) -> Option<Op> {
    if c == '!' {
        Some(Op::NotEq)
    } else if c == '^' {
        Some(Op::StartsWith)
    } else if c == '$' {
        Some(Op::EndsWith)
    } else if c == '*' {
        Some(Op::Contains)
    } else {
        None
    }
}

/// The first unquoted infix operator at or after `i`: where it starts,
/// which it is, and where its right-hand side starts. Two-character
/// operators win over a bare `=` at the same position.
pub open spec fn split_op_from(s: Seq<char>, i: int, inq: bool) -> Option<(int, Op, int)>
    decreases s.len() - i,
{
    if i < 0 || i >= s.len() {
        None
    } else if s[i] == '"' {
        split_op_from(s, i + 1, !inq)
    } else if inq {
        split_op_from(s, i + 1, inq)
    } else if i + 1 < s.len() && s[i + 1] == '=' && two_char_op(s[i]) is Some {
        Some((i, two_char_op(s[i])->0, i + 2))
    } else if s[i] == '=' {
        Some((i, Op::Eq, i + 1))
    } else {
        split_op_from(s, i + 1, inq)
    }
}

/// `s` without one pair of surrounding double quotes, if it has them.
pub open spec fn unquote(s: Seq<char>) -> Seq<char> {
    if s.len() >= 2 && s[0] == '"' && s[s.len() - 1] == '"' {
        s.subrange(1, s.len() - 1)
    } else {
        s
    }
}

/// Whether the text after the scope starts with an absence marker, and the
/// text that follows it. A `!` directly followed by `=` is the `!=`
/// operator, not a marker.
pub open spec fn strip_absence(rest: Seq<char>) -> (bool, Seq<char>) {
    let t = trim_start(rest);
    if t.len() > 0 && t[0] == '!' {
        if t.len() > 1 && t[1] == '=' {
            (false, rest)
        } else {
            (true, t.skip(1))
        }
    } else {
        (false, rest)
    }
}

/// What parsing `input` yields.
pub open spec fn parse_predicate(input: Seq<char>) -> Result<PredV, PredErrV> {
    let (scope, rest) = split_scope_spec(input);
    let (absence, after) = strip_absence(rest);
    match split_op_from(after, 0, false) {
        Some((i, op, j)) => if absence {
            Err(PredErrV::OperatorOnAbsence(op))
        } else if trim(after.take(i)).len() == 0 {
            Err(PredErrV::EmptyPath)
        } else {
            Ok(
                PredV {
                    scope,
                    rel_path: trim(after.take(i)),
                    op,
                    literal: unquote(trim(after.skip(j))),
                    raw: input,
                },
            )
        },
        None => if trim(after).len() == 0 {
            Err(PredErrV::EmptyPath)
        } else {
            Ok(
                PredV {
                    scope,
                    rel_path: trim(after),
                    op: if absence {
                        Op::Absent
                    } else {
                        Op::Present
                    },
                    literal: Seq::empty(),
                    raw: input,
                },
            )
        },
    }
}

proof fn lemma_colon_after_plain(t: Seq<char>, n: int, i: int)
    requires
        0 <= i <= n < t.len(),
        t[n] == ':',
        forall|k: int| 0 <= k < n ==> t[k] != '"' && t[k] != ':',
    ensures
        unquoted_colon(t, i, false) == Some(n),
    decreases n - i,
{
    if i < n {
        lemma_colon_after_plain(t, n, i + 1);
    }
}

proof fn lemma_no_colon(t: Seq<char>, i: int, inq: bool)
    requires
        0 <= i,
        forall|k: int| 0 <= k < t.len() ==> t[k] != ':',
    ensures
        unquoted_colon(t, i, inq) is None,
    decreases t.len() - i,
{
    if i < t.len() {
        lemma_no_colon(t, i + 1, !inq);
        lemma_no_colon(t, i + 1, inq);
    }
}

/// A scope prefix only adds the scope: `scope:rest` parses as `rest` does,
/// with that scope (and the whole input as its text), when the scope is a
/// plain name and `rest` holds no `:`.
pub proof fn lemma_scope_prefix(scope: Seq<char>, rest: Seq<char>)
    requires
        scope.len() > 0,
        forall|k: int| 0 <= k < scope.len() ==> {
            let c = #[trigger] scope[k];
            c != ':' && c != '"' && c != '=' && c != '!' && c != '^' && c != '$' && c != '*'
        },
        forall|k: int| 0 <= k < rest.len() ==> #[trigger] rest[k] != ':',
    ensures
        match (parse_predicate(scope + seq![':'] + rest), parse_predicate(rest)) {
            (Ok(p1), Ok(p2)) => p1 == PredV {
                scope: Some(scope),
                raw: scope + seq![':'] + rest,
                ..p2
            },
            (Err(e1), Err(e2)) => e1 == e2,
            _ => false,
        },
{
    let input = scope + seq![':'] + rest;
    let n = scope.len() as int;
    assert forall|k: int| 0 <= k < n implies input[k] != '"' && input[k] != ':' by {
        assert(input[k] == scope[k]);
    }
    assert(input[n] == ':');
    lemma_colon_after_plain(input, n, 0);
    assert(input.take(n) =~= scope);
    assert(input.skip(n + 1) =~= rest);
    assert(!has_char(scope, '=') && !has_char(scope, '!') && !has_char(scope, '^') && !has_char(scope, '$')
        && !has_char(scope, '*'));
    lemma_no_colon(rest, 0, false);
    assert(split_scope_spec(input) == (Some(scope), rest));
    assert(split_scope_spec(rest) == (None::<Seq<char>>, rest));
}

pub open spec fn opt_vec_chars(o: Option<Vec<char>>) -> Option<Seq<char>> {
    match o {
        Some(v) => Some(v@),
        None => None,
    }
}

/// Peel off a scope: an unquoted `:` with a non-empty, operator-free
/// prefix before it.
pub fn split_scope(input: &Vec<char>) -> (res: (Option<Vec<char>>, Vec<char>))
    ensures
        (opt_vec_chars(res.0), res.1@) == split_scope_spec(input@),
{
    let mut in_quotes = false;
    let mut i: usize = 0;
    while i < input.len()
        invariant
            i <= input.len(),
            unquoted_colon(input@, 0, false) == unquoted_colon(input@, i as int, in_quotes),
        decreases input.len() - i,
    {
        let c = input[i];
        if c == '"' {
            in_quotes = !in_quotes;
        } else if c == ':' && !in_quotes {
            let scope = slice(input, 0, i);
            assert(scope@ =~= input@.take(i as int));
            if scope.len() == 0 || has_char_exec(&scope, '=') || has_char_exec(&scope, '!')
                || has_char_exec(&scope, '^') || has_char_exec(&scope, '$') || has_char_exec(
                &scope,
                '*',
            ) {
                return (None, slice(input, 0, input.len()));
            }
            let rest = slice(input, i + 1, input.len());
            assert(rest@ =~= input@.skip(i + 1));
            return (Some(scope), rest);
        }
        i = i + 1;
    }
    let all = slice(input, 0, input.len());
    assert(all@ =~= input@);
    (None, all)
}

/// Find the first unquoted infix operator: its start, the operator, and
/// the start of the right-hand side.
pub fn split_op(input: &Vec<char>) -> (res: Option<(usize, Op, usize)>)
    ensures
        match res {
            Some((i, op, j)) => split_op_from(input@, 0, false) == Some((i as int, op, j as int)),
            None => split_op_from(input@, 0, false) is None,
        },
{
    let mut in_quotes = false;
    let mut i: usize = 0;
    while i < input.len()
        invariant
            i <= input.len(),
            split_op_from(input@, 0, false) == split_op_from(input@, i as int, in_quotes),
        decreases input.len() - i,
    {
        let c = input[i];
        if c == '"' {
            in_quotes = !in_quotes;
        } else if !in_quotes {
            if i + 1 < input.len() && input[i + 1] == '=' {
                if c == '!' {
                    return Some((i, Op::NotEq, i + 2));
                } else if c == '^' {
                    return Some((i, Op::StartsWith, i + 2));
                } else if c == '$' {
                    return Some((i, Op::EndsWith, i + 2));
                } else if c == '*' {
                    return Some((i, Op::Contains, i + 2));
                }
            }
            if c == '=' {
                return Some((i, Op::Eq, i + 1));
            }
        }
        i = i + 1;
    }
    None
}

/// Strip one pair of surrounding double quotes.
pub fn unquote_chars(s: &Vec<char>) -> (res: Vec<char>)
    ensures
        res@ == unquote(s@),
{
    if s.len() >= 2 && s[0] == '"' && s[s.len() - 1] == '"' {
        slice(s, 1, s.len() - 1)
    } else {
        slice(s, 0, s.len())
    }
}

impl MatchPredicate {
    /// Parse a `--match` argument. Grammar:
    ///
    /// ```text
    ///   [scope ":"] [!] path [op literal]
    ///   op := "=" | "!=" | "^=" | "$=" | "*="
    /// ```
    ///
    /// With no op, the predicate is a presence check (or absence, if `!`
    /// prefixes the path).
    pub fn parse(input: &str) -> (res: Result<MatchPredicate, MatchPredicateError>)
        ensures
            match parse_predicate(input@) {
                Ok(p) => res matches Ok(m) && m@ == p,
                Err(PredErrV::OperatorOnAbsence(op)) => res matches Err(
                    MatchPredicateError::OperatorOnAbsence { op: o, input: i },
                ) && o == op && i@ == input@,
                Err(PredErrV::EmptyPath) => res matches Err(MatchPredicateError::EmptyPath { input: i })
                    && i@ == input@,
            },
    {
        let s = chars_of(input);
        let (scope, rest) = split_scope(&s);
        let t = trim_start_exec(&rest);
        let mut absence = false;
        let after: Vec<char>;
        if t.len() > 0 && t[0] == '!' {
            if t.len() > 1 && t[1] == '=' {
                after = rest;
            } else {
                absence = true;
                after = slice(&t, 1, t.len());
                assert(after@ =~= t@.skip(1));
            }
        } else {
            after = rest;
        }
        assert((absence, after@) == strip_absence(split_scope_spec(input@).1));
        let scope_s: Option<String> = match scope {
            Some(v) => Some(string_of(&v)),
            None => None,
        };
        match split_op(&after) {
            Some((i, op, j)) => {
                proof {
                    reveal_with_fuel(split_op_from, 1);
                }
                assert(i < after.len() && j <= after.len()) by {
                    lemma_split_op_bounds(after@, 0, false);
                }
                if absence {
                    return Err(MatchPredicateError::OperatorOnAbsence { op, input: input.to_owned() });
                }
                let lhs = slice(&after, 0, i);
                assert(lhs@ =~= after@.take(i as int));
                let path = trim_exec(&lhs);
                if path.len() == 0 {
                    return Err(MatchPredicateError::EmptyPath { input: input.to_owned() });
                }
                let rhs = slice(&after, j, after.len());
                assert(rhs@ =~= after@.skip(j as int));
                let lit = unquote_chars(&trim_exec(&rhs));
                Ok(
                    MatchPredicate {
                        scope: scope_s,
                        rel_path: string_of(&path),
                        op,
                        literal: string_of(&lit),
                        raw: input.to_owned(),
                    },
                )
            },
            None => {
                let path = trim_exec(&after);
                if path.len() == 0 {
                    return Err(MatchPredicateError::EmptyPath { input: input.to_owned() });
                }
                Ok(
                    MatchPredicate {
                        scope: scope_s,
                        rel_path: string_of(&path),
                        op: if absence {
                            Op::Absent
                        } else {
                            Op::Present
                        },
                        literal: String::new(),
                        raw: input.to_owned(),
                    },
                )
            },
        }
    }
}

/// Where `split_op_from` finds an operator, it lies inside the input.
pub proof fn lemma_split_op_bounds(s: Seq<char>, i: int, inq: bool)
    ensures
        split_op_from(s, i, inq) matches Some((a, op, b)) ==> i <= a < b <= s.len() && (b == a + 1
            || b == a + 2),
    decreases s.len() - i,
{
    if 0 <= i < s.len() {
        lemma_split_op_bounds(s, i + 1, !inq);
        lemma_split_op_bounds(s, i + 1, inq);
    }
}


// ---------------------------------------------------------------------------
// Evaluation
// ---------------------------------------------------------------------------

/// Whether a rendered scalar satisfies a binary operator against `lit`.
pub open spec fn op_holds(op: Op, rendered: Seq<char>, lit: Seq<char>) -> bool {
    match op {
        Op::Eq => rendered == lit,
        Op::NotEq => rendered != lit,
        Op::StartsWith => starts_with(rendered, lit),
        Op::EndsWith => ends_with(rendered, lit),
        Op::Contains => contains_sub(rendered, lit),
        _ => false,
    }
}

/// Whether a predicate with this scope applies to a tracked-path pattern.
pub open spec fn scope_applies(scope: Option<Seq<char>>, pattern: Seq<char>) -> bool {
    match scope {
        None => true,
        Some(s) => contains_sub(pattern, s),
    }
}

impl MatchPredicate {
    /// A scoped predicate applies only to patterns containing its scope.
    pub fn applies_to_pattern(&self, pattern: &str) -> (res: bool)
        ensures
            res == scope_applies(self@.scope, pattern@),
    {
        match &self.scope {
            None => true,
            Some(s) => has_sub(&chars_of(pattern), &chars_of(s.as_str())),
        }
    }

    /// Test the op against a rendered scalar. Only meaningful for binary
    /// ops.
    pub fn matches_scalar(&self, rendered: &str) -> (res: bool)
        requires
            op_is_binary(self.op),
        ensures
            res == op_holds(self.op, rendered@, self.literal@),
    {
        let r = chars_of(rendered);
        let lit = chars_of(self.literal.as_str());
        match self.op {
            Op::Eq => chars_eq(&r, &lit),
            Op::NotEq => !chars_eq(&r, &lit),
            Op::StartsWith => has_prefix(&r, &lit),
            Op::EndsWith => has_suffix(&r, &lit),
            _ => has_sub(&r, &lit),
        }
    }
}

/// Would a node of this shape host the path? A key-first path only under
/// an object; an index-first or wildcard path only under an array.
pub open spec fn hosts_path(anchor: JVal, path: Seq<char>) -> bool {
    match parse_segments(path) {
        Err(_) => false,
        Ok(segs) => if segs.len() == 0 {
            false
        } else {
            match segs[0] {
                SegV::Key(_) => anchor is Obj,
                _ => anchor is Arr,
            }
        },
    }
}

pub fn is_host_for_path(anchor: &Json, path: &str) -> (res: bool)
    ensures
        res == hosts_path(anchor@, path@),
{
    match parse_address(path) {
        Err(_) => false,
        Ok(segs) => {
            if segs.len() == 0 {
                false
            } else {
                match &segs[0] {
                    crate::address::Segment::Key(_) => match anchor {
                        Json::Object(_) => true,
                        _ => false,
                    },
                    _ => match anchor {
                        Json::Array(_) => true,
                        _ => false,
                    },
                }
            }
        },
    }
}

/// An anchor address joined with an address relative to it.
pub open spec fn join_addr(anchor: Seq<char>, rel: Seq<char>) -> Seq<char> {
    if anchor.len() == 0 {
        rel
    } else if rel.len() == 0 {
        anchor
    } else if rel[0] == '[' {
        anchor + rel
    } else {
        anchor + "."@ + rel
    }
}

pub fn join_address(anchor: &str, rel: &str) -> (res: String)
    ensures
        res@ == join_addr(anchor@, rel@),
{
    let a = chars_of(anchor);
    let r = chars_of(rel);
    if a.len() == 0 {
        return rel.to_owned();
    }
    if r.len() == 0 {
        return anchor.to_owned();
    }
    let mut out = a;
    if r[0] != '[' {
        out.push('.');
    }
    append(&mut out, &r);
    proof {
        reveal_strlit(".");
    }
    assert(out@ =~= join_addr(anchor@, rel@));
    string_of(&out)
}

/// The first occurrence of each element, in order.
pub open spec fn dedup(s: Seq<Seq<char>>) -> Seq<Seq<char>>
    decreases s.len(),
{
    if s.len() == 0 {
        s
    } else {
        let d = dedup(s.drop_last());
        if d.contains(s.last()) {
            d
        } else {
            d.push(s.last())
        }
    }
}

/// Deduplication keeps exactly the elements of its input, each once.
pub proof fn lemma_dedup(s: Seq<Seq<char>>)
    ensures
        dedup(s).no_duplicates(),
        forall|x: Seq<char>| dedup(s).contains(x) <==> s.contains(x),
    decreases s.len(),
{
    if s.len() > 0 {
        let t = s.drop_last();
        lemma_dedup(t);
        assert forall|x: Seq<char>| s.contains(x) <==> t.contains(x) || x == s.last() by {
            if s.contains(x) {
                let i = choose|i: int| 0 <= i < s.len() && s[i] == x;
                if i < s.len() - 1 {
                    assert(t[i] == x);
                }
            }
            if t.contains(x) {
                let i = choose|i: int| 0 <= i < t.len() && t[i] == x;
                assert(s[i] == x);
            }
            if x == s.last() {
                assert(s[s.len() - 1] == x);
            }
        }
        let d = dedup(t);
        if !d.contains(s.last()) {
            assert forall|x: Seq<char>| d.push(s.last()).contains(x) <==> d.contains(x) || x
                == s.last() by {
                if d.push(s.last()).contains(x) {
                    let i = choose|i: int| 0 <= i < d.len() + 1 && d.push(s.last())[i] == x;
                    if i < d.len() {
                        assert(d[i] == x);
                    }
                }
                if d.contains(x) {
                    let i = choose|i: int| 0 <= i < d.len() && d[i] == x;
                    assert(d.push(s.last())[i] == x);
                }
                if x == s.last() {
                    assert(d.push(s.last())[d.len() as int] == x);
                }
            }
        }
    }
}

pub fn dedup_preserve_order(xs: Vec<String>) -> (res: Vec<String>)
    ensures
        strings_view(res@) == dedup(strings_view(xs@)),
        strings_view(res@).no_duplicates(),
        forall|x: Seq<char>| strings_view(res@).contains(x) <==> strings_view(xs@).contains(x),
{
    proof {
        lemma_dedup(strings_view(xs@));
    }
    let ghost xv = strings_view(xs@);
    let mut out: Vec<String> = Vec::new();
    let mut i: usize = 0;
    assert(xv.take(0) =~= Seq::<Seq<char>>::empty());
    while i < xs.len()
        invariant
            i <= xs.len(),
            xv == strings_view(xs@),
            strings_view(out@) == dedup(xv.take(i as int)),
        decreases xs.len() - i,
    {
        let x = &xs[i];
        let mut seen = false;
        let mut k: usize = 0;
        while k < out.len()
            invariant
                k <= out.len(),
                seen <==> exists|m: int| 0 <= m < k && out@[m]@ == x@,
            decreases out.len() - k,
        {
            if out[k] == *x {
                seen = true;
            }
            k = k + 1;
        }
        let ghost d = strings_view(out@);
        assert(xv.take(i + 1).drop_last() =~= xv.take(i as int));
        assert(xv.take(i + 1).last() == x@);
        assert(seen == d.contains(x@)) by {
            if seen {
                let m = choose|m: int| 0 <= m < out.len() && out@[m]@ == x@;
                assert(d[m] == x@);
            }
            if d.contains(x@) {
                let m = choose|m: int| 0 <= m < d.len() && d[m] == x@;
                assert(out@[m]@ == x@);
            }
        }
        if !seen {
            out.push(x.clone());
            assert(strings_view(out@) =~= d.push(x@));
        }
        i = i + 1;
    }
    assert(xv.take(xs.len() as int) =~= xv);
    out
}


/// Addresses of the first `n` hits, joined onto `anchor`.
pub open spec fn present_hits(anchor: Seq<char>, hits: Seq<(Seq<char>, JVal)>, n: nat) -> Seq<
    Seq<char>,
>
    decreases n,
{
    if n == 0 || n > hits.len() {
        Seq::empty()
    } else {
        present_hits(anchor, hits, (n - 1) as nat).push(join_addr(anchor, hits[n - 1].0))
    }
}

/// Addresses, joined onto `anchor`, of those of the first `n` hits that
/// are scalars whose rendered form satisfies `op` against `lit`.
pub open spec fn binary_hits(
    anchor: Seq<char>,
    hits: Seq<(Seq<char>, JVal)>,
    op: Op,
    lit: Seq<char>,
    n: nat,
) -> Seq<Seq<char>>
    decreases n,
{
    if n == 0 || n > hits.len() {
        Seq::empty()
    } else {
        let prev = binary_hits(anchor, hits, op, lit, (n - 1) as nat);
        match scalar_text(hits[n - 1].1) {
            Some(r) => if op_holds(op, r, lit) {
                prev.push(join_addr(anchor, hits[n - 1].0))
            } else {
                prev
            },
            None => prev,
        }
    }
}

/// What a predicate contributes at one anchor address of `tree`.
pub open spec fn anchor_hits(tree: JVal, p: PredV, anchor: Seq<char>) -> Seq<Seq<char>> {
    match subtree_at_spec(tree, anchor) {
        None => Seq::empty(),
        Some(a) => match resolve_rel_path_spec(a, p.rel_path) {
            Err(_) => Seq::empty(),
            Ok(hits) => if p.op is Present {
                present_hits(anchor, hits, hits.len())
            } else if p.op is Absent {
                if hits.len() == 0 && hosts_path(a, p.rel_path) {
                    seq![anchor]
                } else {
                    Seq::empty()
                }
            } else {
                binary_hits(anchor, hits, p.op, p.literal, hits.len())
            },
        },
    }
}

/// Everything the first `n` anchors contribute, in order.
pub open spec fn hits_over(tree: JVal, p: PredV, anchors: Seq<Seq<char>>, n: nat) -> Seq<
    Seq<char>,
>
    decreases n,
{
    if n == 0 || n > anchors.len() {
        Seq::empty()
    } else {
        hits_over(tree, p, anchors, (n - 1) as nat) + anchor_hits(tree, p, anchors[n - 1])
    }
}

/// The anchor addresses a predicate is tried at, in document order: the
/// object and array nodes for an absence check, the object nodes
/// otherwise.
pub open spec fn anchors_for(tree: JVal, p: PredV) -> Seq<Seq<char>> {
    if p.op is Absent {
        container_addrs(tree, Seq::empty())
    } else {
        object_addrs(tree, Seq::empty())
    }
}

/// Every address at which `p` matches in `tree`, over its anchors, each
/// address kept at its first occurrence only.
pub open spec fn match_addresses(tree: JVal, p: PredV) -> Seq<Seq<char>> {
    let anchors = anchors_for(tree, p);
    dedup(hits_over(tree, p, anchors, anchors.len()))
}

/// Find every address in `tree` where `pred` matches.
///
/// For binary ops and `Present`, tries the path at every object and emits
/// concrete value addresses. For `Absent`, emits anchor addresses (objects
/// or arrays that could host the path but don't).
pub fn find_match_addresses(tree: &Json, pred: &MatchPredicate) -> (res: Vec<String>)
    ensures
        strings_view(res@) == match_addresses(tree@, pred@),
        strings_view(res@).no_duplicates(),
{
    let anchors = match pred.op {
        Op::Absent => find_container_addresses(tree),
        _ => find_addresses_all_objects(tree),
    };
    let ghost av = strings_view(anchors@);
    let mut out: Vec<String> = Vec::new();
    let mut n: usize = 0;
    while n < anchors.len()
        invariant
            n <= anchors.len(),
            av == strings_view(anchors@),
            av == anchors_for(tree@, pred@),
            strings_view(out@) == hits_over(tree@, pred@, av, n as nat),
        decreases anchors.len() - n,
    {
        let anchor_addr = &anchors[n];
        let ghost before = strings_view(out@);
        match subtree_at(tree, anchor_addr.as_str()) {
            None => {},
            Some(anchor) => match resolve_rel_path(&anchor, pred.rel_path.as_str()) {
                Err(_) => {},
                Ok(resolved) => {
                    let ghost hits = crate::address::pairs_view(resolved@);
                    match pred.op {
                        Op::Present => {
                            let mut k: usize = 0;
                            while k < resolved.len()
                                invariant
                                    k <= resolved.len(),
                                    hits == crate::address::pairs_view(resolved@),
                                    strings_view(out@) == before + present_hits(
                                        anchor_addr@,
                                        hits,
                                        k as nat,
                                    ),
                                decreases resolved.len() - k,
                            {
                                assert(hits[k as int] == (resolved@[k as int].0@, resolved@[
                                    k as int].1@));
                                let a = join_address(anchor_addr.as_str(), resolved[k].0.as_str());
                                let ghost o1 = strings_view(out@);
                                out.push(a);
                                assert(strings_view(out@) =~= o1.push(a@));
                                assert(strings_view(out@) =~= before + present_hits(
                                    anchor_addr@,
                                    hits,
                                    (k + 1) as nat,
                                ));
                                k = k + 1;
                            }
                        },
                        Op::Absent => {
                            if resolved.len() == 0 && is_host_for_path(
                                &anchor,
                                pred.rel_path.as_str(),
                            ) {
                                out.push(anchor_addr.clone());
                                assert(strings_view(out@) =~= before + seq![anchor_addr@]);
                            } else {
                                assert(strings_view(out@) =~= before + Seq::<Seq<char>>::empty());
                            }
                        },
                        _ => {
                            let mut k: usize = 0;
                            while k < resolved.len()
                                invariant
                                    k <= resolved.len(),
                                    op_is_binary(pred.op),
                                    hits == crate::address::pairs_view(resolved@),
                                    strings_view(out@) == before + binary_hits(
                                        anchor_addr@,
                                        hits,
                                        pred.op,
                                        pred.literal@,
                                        k as nat,
                                    ),
                                decreases resolved.len() - k,
                            {
                                assert(hits[k as int] == (resolved@[k as int].0@, resolved@[
                                    k as int].1@));
                                let ghost o1 = strings_view(out@);
                                match render_scalar(&resolved[k].1) {
                                    Some(r) => {
                                        if pred.matches_scalar(string_of(&r).as_str()) {
                                            let a = join_address(
                                                anchor_addr.as_str(),
                                                resolved[k].0.as_str(),
                                            );
                                            out.push(a);
                                            assert(strings_view(out@) =~= o1.push(a@));
                                        }
                                    },
                                    None => {},
                                }
                                assert(strings_view(out@) =~= before + binary_hits(
                                    anchor_addr@,
                                    hits,
                                    pred.op,
                                    pred.literal@,
                                    (k + 1) as nat,
                                ));
                                k = k + 1;
                            }
                        },
                    }
                },
            },
        }
        assert(strings_view(out@) =~= hits_over(tree@, pred@, av, (n + 1) as nat));
        n = n + 1;
    }
    dedup_preserve_order(out)
}

// ---------------------------------------------------------------------------
// What a predicate's matches hold
// ---------------------------------------------------------------------------

proof fn lemma_concat_renderable(c1: Seq<SegV>, c2: Seq<SegV>)
    requires
        renderable(c1),
        renderable(c2),
        concrete(c1),
        concrete(c2),
    ensures
        renderable(c1 + c2),
        concrete(c1 + c2),
{
    let c = c1 + c2;
    assert forall|i: int| 0 <= i < c.len() implies match #[trigger] c[i] {
        SegV::Key(k) => plain_key(k),
        _ => true,
    } by {
        if i < c1.len() {
            assert(c[i] == c1[i]);
        } else {
            assert(c[i] == c2[i - c1.len()]);
        }
    }
    assert forall|i: int| 0 <= i < c.len() implies !(#[trigger] c[i] is Any) by {
        if i < c1.len() {
            assert(c[i] == c1[i]);
        } else {
            assert(c[i] == c2[i - c1.len()]);
        }
    }
}

proof fn lemma_render_concat(c1: Seq<SegV>, c2: Seq<SegV>)
    requires
        renderable(c1),
        renderable(c2),
    ensures
        render_address(c1 + c2) == join_addr(render_address(c1), render_address(c2)),
    decreases c2.len(),
{
    reveal_strlit(".");
    if c1.len() == 0 {
        assert(c1 + c2 =~= c2);
        assert(render_address(c1) =~= Seq::<char>::empty());
    } else if c2.len() == 0 {
        assert(c1 + c2 =~= c1);
        assert(render_address(c2) =~= Seq::<char>::empty());
    } else {
        let a = render_address(c1);
        lemma_render_nonempty(c1);
        let c2p = c2.drop_last();
        let sg = c2.last();
        assert forall|i: int| 0 <= i < c2p.len() implies match #[trigger] c2p[i] {
            SegV::Key(k) => plain_key(k),
            _ => true,
        } by {
            assert(c2p[i] == c2[i]);
        }
        lemma_render_concat(c1, c2p);
        assert((c1 + c2).drop_last() =~= c1 + c2p);
        assert((c1 + c2).last() == sg);
        let x = render_address(c1 + c2p);
        let rp = render_address(c2p);
        assert(x == join_addr(a, rp));
        match sg {
            SegV::Key(k) => {
                assert(plain_key(k)) by {
                    assert(c2[c2.len() - 1] == sg);
                }
            },
            _ => {},
        }
        if c2p.len() == 0 {
            assert(rp =~= Seq::<char>::empty());
            assert(x == a);
            match sg {
                SegV::Key(k) => {
                    assert(render_address(c2) == join_key(rp, k));
                    assert(render_address(c2) == k);
                    assert(k[0] != '[');
                    assert(render_address(c1 + c2) =~= join_addr(a, render_address(c2)));
                },
                SegV::Index(n) => {
                    assert(render_address(c2) =~= seq!['['] + decimal(n as nat) + seq![']']);
                    assert(render_address(c1 + c2) =~= join_addr(a, render_address(c2)));
                },
                SegV::Any => {
                    assert(render_address(c2) =~= seq!['[', ']']);
                    assert(render_address(c1 + c2) =~= join_addr(a, render_address(c2)));
                },
            }
        } else {
            lemma_render_nonempty(c2p);
            let r = render_address(c2);
            assert(x.len() > 0);
            match sg {
                SegV::Key(k) => {
                    assert(r =~= rp + seq!['.'] + k);
                    assert(render_address(c1 + c2) =~= x + seq!['.'] + k);
                },
                SegV::Index(n) => {
                    assert(r =~= rp + seq!['['] + decimal(n as nat) + seq![']']);
                    assert(render_address(c1 + c2) =~= x + seq!['['] + decimal(n as nat) + seq![']']);
                },
                SegV::Any => {
                    assert(r =~= rp + seq!['[', ']']);
                    assert(render_address(c1 + c2) =~= x + seq!['[', ']']);
                },
            }
            assert(r[0] == rp[0]);
            assert(render_address(c1 + c2) =~= join_addr(a, r));
        }
    }
}

/// The tree holds, at address `a`, a scalar whose rendered form
/// satisfies the predicate's operator against its literal.
pub open spec fn satisfied_at(tree: JVal, p: PredV, a: Seq<char>) -> bool {
    match subtree_at_spec(tree, a) {
        Some(x) => match scalar_text(x) {
            Some(r) => op_holds(p.op, r, p.literal),
            None => false,
        },
        None => false,
    }
}

proof fn lemma_binary_hits_from(
    anchor: Seq<char>,
    hits: Seq<(Seq<char>, JVal)>,
    op: Op,
    lit: Seq<char>,
    n: nat,
)
    ensures
        forall|a: Seq<char>| #[trigger] binary_hits(anchor, hits, op, lit, n).contains(a) ==> exists|j: int|
            0 <= j < n && j < hits.len() && a == join_addr(anchor, (#[trigger] hits[j]).0) && (scalar_text(
                hits[j].1,
            ) matches Some(r) && op_holds(op, r, lit)),
    decreases n,
{
    if n > 0 && n <= hits.len() {
        lemma_binary_hits_from(anchor, hits, op, lit, (n - 1) as nat);
        let prev = binary_hits(anchor, hits, op, lit, (n - 1) as nat);
        assert forall|a: Seq<char>| #[trigger] binary_hits(anchor, hits, op, lit, n).contains(a) implies exists|j: int|
            0 <= j < n && j < hits.len() && a == join_addr(anchor, (#[trigger] hits[j]).0) && (scalar_text(
                hits[j].1,
            ) matches Some(r) && op_holds(op, r, lit)) by {
            if prev.contains(a) {
            } else {
                let full = binary_hits(anchor, hits, op, lit, n);
                let q = choose|q: int| 0 <= q < full.len() && full[q] == a;
                if full != prev {
                    assert(full == prev.push(join_addr(anchor, hits[n - 1].0)));
                    if q < prev.len() {
                        assert(prev[q] == a);
                    } else {
                        let j = n - 1;
                        assert(a == join_addr(anchor, hits[j].0));
                    }
                }
            }
        }
    }
}

proof fn lemma_anchor_hits_hold(tree: JVal, p: PredV, anchor: Seq<char>)
    requires
        plain_keys(tree),
        op_is_binary(p.op),
        spellable(anchor),
    ensures
        forall|a: Seq<char>| #[trigger] anchor_hits(tree, p, anchor).contains(a) ==> satisfied_at(tree, p, a),
{
    let c1 = choose|c: Seq<SegV>| renderable(c) && concrete(c) && #[trigger] render_address(c) == anchor;
    lemma_address_round_trip(c1);
    if c1.len() > 0 {
        lemma_render_nonempty(c1);
    } else {
        assert(c1 =~= Seq::<SegV>::empty());
    }
    assert(subtree_at_spec(tree, anchor) == walk_segs(tree, c1));
    match walk_segs(tree, c1) {
        None => {},
        Some(av) => {
            lemma_walk_plain(tree, c1);
            match resolve_rel_path_spec(av, p.rel_path) {
                Err(_) => {},
                Ok(hits) => {
                    let segs = parse_segments(p.rel_path)->Ok_0;
                    let e = Seq::<SegV>::empty();
                    assert(render_address(e) =~= Seq::<char>::empty());
                    assert(walk_segs(av, e) == Some(av));
                    lemma_walk_rel_hits(av, av, segs, e);
                    assert(hits == walk_rel(av, segs, render_address(e)));
                    assert(anchor_hits(tree, p, anchor) == binary_hits(anchor, hits, p.op, p.literal, hits.len()));
                    lemma_binary_hits_from(anchor, hits, p.op, p.literal, hits.len());
                    assert forall|a: Seq<char>| #[trigger] anchor_hits(tree, p, anchor).contains(a) implies satisfied_at(
                        tree,
                        p,
                        a,
                    ) by {
                        let j = choose|j: int|
                            0 <= j < hits.len() && j < hits.len() && a == join_addr(anchor, (#[trigger] hits[j]).0) && (
                            scalar_text(hits[j].1) matches Some(r) && op_holds(p.op, r, p.literal));
                        let h = hits[j];
                        assert(hits.contains(h));
                        let c2 = choose|c: Seq<SegV>| crate::address::hit_witness(av, c, h);
                        lemma_render_concat(c1, c2);
                        lemma_concat_renderable(c1, c2);
                        lemma_address_round_trip(c1 + c2);
                        lemma_walk_concat(tree, c1, c2);
                        if (c1 + c2).len() > 0 {
                            lemma_render_nonempty(c1 + c2);
                        } else {
                            assert(c1 =~= e && c2 =~= e);
                            assert(walk_segs(av, c2) == Some(av));
                        }
                        assert(subtree_at_spec(tree, a) == Some(h.1));
                    }
                },
            }
        },
    }
}

proof fn lemma_dedup_subset(s: Seq<Seq<char>>)
    ensures
        forall|a: Seq<char>| #[trigger] dedup(s).contains(a) ==> s.contains(a),
    decreases s.len(),
{
    if s.len() > 0 {
        lemma_dedup_subset(s.drop_last());
        assert forall|a: Seq<char>| #[trigger] dedup(s).contains(a) implies s.contains(a) by {
            let d = dedup(s.drop_last());
            if d.contains(a) {
                let q = choose|q: int| 0 <= q < s.drop_last().len() && s.drop_last()[q] == a;
                assert(s[q] == a);
            } else {
                let q = choose|q: int| 0 <= q < dedup(s).len() && dedup(s)[q] == a;
                assert(dedup(s) == d.push(s.last()));
                if q < d.len() {
                    assert(d[q] == a);
                }
                assert(s[s.len() - 1] == a);
            }
        }
    }
}

proof fn lemma_hits_over_hold(tree: JVal, p: PredV, anchors: Seq<Seq<char>>, n: nat)
    requires
        plain_keys(tree),
        op_is_binary(p.op),
        forall|j: int| 0 <= j < anchors.len() ==> spellable(#[trigger] anchors[j]),
    ensures
        forall|a: Seq<char>| #[trigger] hits_over(tree, p, anchors, n).contains(a) ==> satisfied_at(tree, p, a),
    decreases n,
{
    if n > 0 && n <= anchors.len() {
        lemma_hits_over_hold(tree, p, anchors, (n - 1) as nat);
        let an = anchors[n - 1];
        assert(spellable(an));
        lemma_anchor_hits_hold(tree, p, an);
        let x = hits_over(tree, p, anchors, (n - 1) as nat);
        let y = anchor_hits(tree, p, an);
        assert forall|a: Seq<char>| #[trigger] hits_over(tree, p, anchors, n).contains(a) implies satisfied_at(tree, p, a) by {
            assert(hits_over(tree, p, anchors, n) == x + y);
            let q = choose|q: int| 0 <= q < (x + y).len() && (x + y)[q] == a;
            if q < x.len() {
                assert(x[q] == a);
                assert(x.contains(a));
            } else {
                assert(y[q - x.len()] == a);
                assert(y.contains(a));
            }
        }
    }
}

/// Every address a comparison predicate matches holds a scalar whose
/// rendered form satisfies the operator against the literal, when the
/// tree's keys are ones an address can spell.
pub proof fn lemma_match_addresses_hold(tree: JVal, p: PredV)
    requires
        plain_keys(tree),
        op_is_binary(p.op),
    ensures
        forall|a: Seq<char>| #[trigger] match_addresses(tree, p).contains(a) ==> satisfied_at(tree, p, a),
{
    let e = Seq::<SegV>::empty();
    assert(render_address(e) =~= Seq::<char>::empty());
    assert(renderable(e) && concrete(e));
    lemma_object_spellable(tree, e);
    let anchors = anchors_for(tree, p);
    assert(anchors == object_addrs(tree, Seq::empty()));
    assert forall|j: int| 0 <= j < anchors.len() implies spellable(#[trigger] anchors[j]) by {
        assert(anchors.contains(anchors[j]));
    }
    lemma_hits_over_hold(tree, p, anchors, anchors.len());
    lemma_dedup_subset(hits_over(tree, p, anchors, anchors.len()));
}

/// The same, for a tree the program holds: only its keys need be ones an
/// address can spell.
pub proof fn lemma_match_addresses_hold_of_json(tree: Json, p: PredV)
    requires
        crate::address::keys_plain(tree@),
        op_is_binary(p.op),
    ensures
        forall|a: Seq<char>| #[trigger] match_addresses(tree@, p).contains(a) ==> satisfied_at(tree@, p, a),
{
    crate::address::lemma_json_plain_keys(tree);
    lemma_match_addresses_hold(tree@, p);
}

/// The predicate `a <op> b`, written with an operator's text.
pub open spec fn op_sample(op: Op) -> Seq<char> {
    seq!['a', ' '] + op_text(op) + seq![' ', 'b']
}

proof fn lemma_trim_sample()
    ensures
        trim(seq!['a', ' ']) == seq!['a'],
        trim(seq![' ', 'b']) == seq!['b'],
        trim_start(seq!['a', ' ']) == seq!['a', ' '],
{
    let x = seq!['a', ' '];
    let y = seq![' ', 'b'];
    assert(!is_ws('a') && !is_ws('b') && is_ws(' '));
    assert(lead_ws(x) == 0);
    assert(x.drop_last() =~= seq!['a']);
    assert(trail_ws(seq!['a']) == 0);
    assert(trail_ws(x) == 1);
    assert(trim_start(x) =~= x);
    assert(trim(x) =~= seq!['a']);
    assert(y.drop_first() =~= seq!['b']);
    assert(lead_ws(seq!['b']) == 0);
    assert(lead_ws(y) == 1);
    assert(trim_start(y) =~= seq!['b']);
    assert(trail_ws(seq!['b']) == 0);
    assert(trim(y) =~= seq!['b']);
}

/// An operator's text parses back to that operator: `a <op> b` has path
/// `a`, the operator, and literal `b`. Presence and absence have no text.
pub proof fn lemma_op_text_parses_back(op: Op)
    ensures
        op_is_binary(op) ==> parse_predicate(op_sample(op)) == Ok::<PredV, PredErrV>(
            PredV { scope: None, rel_path: seq!['a'], op, literal: seq!['b'], raw: op_sample(op) },
        ),
        !op_is_binary(op) ==> op_text(op) == Seq::<char>::empty(),
{
    reveal_strlit("=");
    reveal_strlit("!=");
    reveal_strlit("^=");
    reveal_strlit("$=");
    reveal_strlit("*=");
    reveal_strlit("");
    if op_is_binary(op) {
        let s = op_sample(op);
        let t = op_text(op);
        let j: int = 2 + t.len() as int;
        assert(t.len() == 1 || t.len() == 2);
        assert(t[t.len() - 1] == '=');
        assert(t.len() == 2 ==> two_char_op(t[0]) == Some(op));
        assert(t.len() == 1 ==> op is Eq);
        assert(s.len() == j + 2);
        assert(s[0] == 'a' && s[1] == ' ' && s[j] == ' ' && s[j + 1] == 'b');
        assert(forall|k: int| 0 <= k < t.len() ==> s[2 + k] == t[k]);
        assert forall|k: int| 0 <= k < s.len() implies #[trigger] s[k] != ':' by {
            if 2 <= k < j {
                assert(s[k] == t[k - 2]);
            }
        }
        lemma_no_colon(s, 0, false);
        assert(split_scope_spec(s) == (None::<Seq<char>>, s));
        lemma_trim_sample();
        assert(!is_ws('a'));
        assert(lead_ws(s) == 0);
        assert(trim_start(s) =~= s);
        assert(strip_absence(s) == (false, s));
        assert(two_char_op('a') is None && two_char_op(' ') is None);
        assert(split_op_from(s, 1, false) == split_op_from(s, 2, false));
        assert(split_op_from(s, 0, false) == split_op_from(s, 1, false));
        if t.len() == 1 {
            assert(s[3] == ' ');
            assert(split_op_from(s, 2, false) == Some((2int, Op::Eq, 3int)));
        } else {
            assert(s[3] == '=');
            assert(split_op_from(s, 2, false) == Some((2int, op, 4int)));
        }
        assert(s.take(2) =~= seq!['a', ' ']);
        assert(s.skip(j) =~= seq![' ', 'b']);
        assert(unquote(seq!['b']) == seq!['b']);
    }
}

proof fn lemma_binary_hits_include(
    anchor: Seq<char>,
    hits: Seq<(Seq<char>, JVal)>,
    op: Op,
    lit: Seq<char>,
    n: nat,
    k: int,
)
    requires
        0 <= k < n <= hits.len(),
        scalar_text(hits[k].1) matches Some(r) && op_holds(op, r, lit),
    ensures
        binary_hits(anchor, hits, op, lit, n).contains(join_addr(anchor, hits[k].0)),
    decreases n,
{
    let x = join_addr(anchor, hits[k].0);
    let prev = binary_hits(anchor, hits, op, lit, (n - 1) as nat);
    let full = binary_hits(anchor, hits, op, lit, n);
    if k == n - 1 {
        assert(full == prev.push(x));
        assert(full[prev.len() as int] == x);
    } else {
        lemma_binary_hits_include(anchor, hits, op, lit, (n - 1) as nat, k);
        let q = choose|q: int| 0 <= q < prev.len() && prev[q] == x;
        assert(full == prev || full == prev.push(join_addr(anchor, hits[n - 1].0)));
        assert(full[q] == x);
    }
}

proof fn lemma_hits_over_include(tree: JVal, p: PredV, anchors: Seq<Seq<char>>, n: nat, j: int, x: Seq<char>)
    requires
        0 <= j < n <= anchors.len(),
        anchor_hits(tree, p, anchors[j]).contains(x),
    ensures
        hits_over(tree, p, anchors, n).contains(x),
    decreases n,
{
    let a = hits_over(tree, p, anchors, (n - 1) as nat);
    let b = anchor_hits(tree, p, anchors[n - 1]);
    assert(hits_over(tree, p, anchors, n) == a + b);
    if j == n - 1 {
        let q = choose|q: int| 0 <= q < b.len() && b[q] == x;
        assert((a + b)[a.len() + q] == x);
    } else {
        lemma_hits_over_include(tree, p, anchors, (n - 1) as nat, j, x);
        let q = choose|q: int| 0 <= q < a.len() && a[q] == x;
        assert((a + b)[q] == x);
    }
}

proof fn lemma_dedup_keeps(s: Seq<Seq<char>>, x: Seq<char>)
    requires
        s.contains(x),
    ensures
        dedup(s).contains(x),
    decreases s.len(),
{
    let d = dedup(s.drop_last());
    if s.last() == x {
        if !d.contains(x) {
            assert(dedup(s) == d.push(x));
            assert(dedup(s)[d.len() as int] == x);
        }
    } else {
        let q = choose|q: int| 0 <= q < s.len() && s[q] == x;
        assert(s.drop_last()[q] == x);
        lemma_dedup_keeps(s.drop_last(), x);
        let r = choose|r: int| 0 <= r < d.len() && d[r] == x;
        if !d.contains(s.last()) {
            assert(dedup(s) == d.push(s.last()));
            assert(dedup(s)[r] == x);
        }
    }
}

/// A comparison predicate finds every match: wherever an object of the
/// tree has, along the predicate's path, a scalar — string, number or
/// boolean — whose rendered text satisfies the operator against the
/// literal, that address is among the matches.
pub proof fn lemma_match_addresses_complete(
    tree: JVal,
    p: PredV,
    anchor: Seq<char>,
    av: JVal,
    hits: Seq<(Seq<char>, JVal)>,
    k: int,
)
    requires
        op_is_binary(p.op),
        object_addrs(tree, Seq::empty()).contains(anchor),
        subtree_at_spec(tree, anchor) == Some(av),
        resolve_rel_path_spec(av, p.rel_path) == Ok::<Seq<(Seq<char>, JVal)>, ScanError>(hits),
        0 <= k < hits.len(),
        scalar_text(hits[k].1) matches Some(r) && op_holds(p.op, r, p.literal),
    ensures
        match_addresses(tree, p).contains(join_addr(anchor, hits[k].0)),
{
    let anchors = anchors_for(tree, p);
    assert(anchors == object_addrs(tree, Seq::empty()));
    let j = choose|j: int| 0 <= j < anchors.len() && anchors[j] == anchor;
    lemma_binary_hits_include(anchor, hits, p.op, p.literal, hits.len(), k);
    assert(anchor_hits(tree, p, anchor) == binary_hits(anchor, hits, p.op, p.literal, hits.len()));
    lemma_hits_over_include(tree, p, anchors, anchors.len(), j, join_addr(anchor, hits[k].0));
    lemma_dedup_keeps(hits_over(tree, p, anchors, anchors.len()), join_addr(anchor, hits[k].0));
}

} // verus!
