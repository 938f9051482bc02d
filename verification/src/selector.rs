//! Selectors: wildcard address patterns.
//!
//! A selector is a sequence of segments where each segment is either a
//! literal key, a literal index, or `[]` — which matches any child of the
//! current node (object value or array element alike).
//!
//! ```text
//! selector := leading? (segment)*
//! leading  := "."            ; optional leading dot for ergonomics
//! segment  := "." key        ; object key
//!           | "[" index "]"  ; literal array index
//!           | "[]"           ; any child (object values or array elements)
//! ```

use vstd::prelude::*;

use crate::address::{
    join_index, join_index_exec, join_key, join_key_exec, lemma_key_index_from, lookup,
    parse_segments, lemma_leading_dot_ignored, quoted_string, scan_segments, find_key, strings_view, ScanError, SegV, Segment,
};
use crate::json::{group_json_view, quoted, view_entries, view_list, JVal, Json};
use crate::text::{append, append_str, chars_of, slice, string_of};

verus! {

broadcast use group_json_view;

/// A single segment of a selector pattern.
#[derive(Debug, Clone, PartialEq, Eq)]
pub enum SelectorSegment {
    /// Literal object key.
    Key(String),
    /// Literal array index.
    Index(usize),
    /// Any child of the current node — object values or array elements.
    Any,
}

impl View for SelectorSegment {
    type V = SegV;

    open spec fn view(&self) -> SegV {
        match self {
            SelectorSegment::Key(k) => SegV::Key(k@),
            SelectorSegment::Index(n) => SegV::Index(*n),
            SelectorSegment::Any => SegV::Any,
        }
    }
}

pub open spec fn sel_view(v: Seq<SelectorSegment>) -> Seq<SegV> {
    v.map_values(|s: SelectorSegment| s@)
}

/// The input with one leading `.` removed.
pub open spec fn strip_dot(s: Seq<char>) -> Seq<char> {
    if s.len() > 0 && s[0] == '.' {
        s.drop_first()
    } else {
        s
    }
}

/// A malformed selector.
#[derive(Debug, Clone, PartialEq, Eq)]
pub enum SelectorError {
    UnclosedBracket { selector: String },
    NonNumericIndex { index: String, selector: String },
}

impl SelectorError {
    /// The error's text: `unclosed `[` in selector: "..."` or
    /// `non-numeric array index "..." in selector: "..."`.
    pub fn message(&self) -> (res: String)
        ensures
            res@ == match self {
                SelectorError::UnclosedBracket { selector } => "unclosed `[` in selector: "@
                    + quoted(selector@),
                SelectorError::NonNumericIndex { index, selector } => "non-numeric array index "@
                    + quoted(index@) + " in selector: "@ + quoted(selector@),
            },
    {
        let mut out: Vec<char> = Vec::new();
        match self {
            SelectorError::UnclosedBracket { selector } => {
                append_str(&mut out, "unclosed `[` in selector: ");
                let q = quoted_string(&chars_of(selector.as_str()));
                append(&mut out, &q);
            },
            SelectorError::NonNumericIndex { index, selector } => {
                append_str(&mut out, "non-numeric array index ");
                let q = quoted_string(&chars_of(index.as_str()));
                append(&mut out, &q);
                append_str(&mut out, " in selector: ");
                let q2 = quoted_string(&chars_of(selector.as_str()));
                append(&mut out, &q2);
            },
        }
        string_of(&out)
    }
}

/// Parse a selector string into a sequence of segments.
///
/// Accepts a leading `.` (`.jobs.[].steps` and `jobs.[].steps` are
/// equivalent); otherwise the grammar is that of addresses.
pub fn parse_selector(input: &str) -> (res: Result<Vec<SelectorSegment>, SelectorError>)
    ensures
        match parse_segments(strip_dot(input@)) {
            Ok(segs) => res matches Ok(v) && sel_view(v@) == segs,
            Err(ScanError::Unclosed) => res matches Err(SelectorError::UnclosedBracket { selector })
                && selector@ == strip_dot(input@),
            Err(ScanError::NonNumeric(inner)) => res matches Err(
                SelectorError::NonNumericIndex { index, selector },
            ) && index@ == inner && selector@ == strip_dot(input@),
        },
{
    let all = chars_of(input);
    let s = if all.len() > 0 && all[0] == '.' {
        slice(&all, 1, all.len())
    } else {
        slice(&all, 0, all.len())
    };
    assert(s@ =~= strip_dot(input@));
    match scan_segments(&s) {
        Ok(v) => {
            let mut out: Vec<SelectorSegment> = Vec::new();
            let mut i: usize = 0;
            while i < v.len()
                invariant
                    i <= v.len(),
                    out@.len() == i,
                    forall|k: int| 0 <= k < i ==> (#[trigger] out@[k])@ == v@[k]@,
                decreases v.len() - i,
            {
                let seg = match &v[i] {
                    Segment::Key(k) => SelectorSegment::Key(k.clone()),
                    Segment::Index(n) => SelectorSegment::Index(*n),
                    Segment::Any => SelectorSegment::Any,
                };
                out.push(seg);
                i = i + 1;
            }
            assert(sel_view(out@) =~= crate::address::segs_view(v@));
            Ok(out)
        },
        Err((unclosed, inner)) => {
            if unclosed {
                Err(SelectorError::UnclosedBracket { selector: string_of(&s) })
            } else {
                Err(SelectorError::NonNumericIndex { index: string_of(&inner), selector: string_of(&s) })
            }
        },
    }
}

/// A selector reads as the address of the same text: `parse_selector` and
/// `parse_address` both succeed or both fail, alike, and succeed with the
/// same segments.
pub proof fn lemma_selector_as_address(s: Seq<char>)
    ensures
        parse_segments(strip_dot(s)) == parse_segments(s),
{
    if s.len() > 0 && s[0] == '.' {
        lemma_leading_dot_ignored(s);
    }
}

/// One leading `.` does not change a selector: `.s` and `s` parse alike.
pub proof fn lemma_selector_leading_dot(s: Seq<char>)
    ensures
        parse_segments(strip_dot(seq!['.'] + s)) == parse_segments(strip_dot(s)),
{
    assert((seq!['.'] + s).drop_first() =~= s);
    lemma_selector_as_address(s);
}

/// Every concrete address that `segs` reaches from `v` (at address `path`).
pub open spec fn sel_walk(v: JVal, segs: Seq<SegV>, path: Seq<char>) -> Seq<Seq<char>>
    decreases segs.len(), 1nat, 0nat,
{
    if segs.len() == 0 {
        seq![path]
    } else {
        match segs[0] {
            SegV::Key(k) => match v {
                JVal::Obj(es) => match lookup(es, k) {
                    Some(next) => sel_walk(next, segs.drop_first(), join_key(path, k)),
                    None => Seq::empty(),
                },
                _ => Seq::empty(),
            },
            SegV::Index(n) => match v {
                JVal::Arr(xs) => if n < xs.len() {
                    sel_walk(xs[n as int], segs.drop_first(), join_index(path, n as nat))
                } else {
                    Seq::empty()
                },
                _ => Seq::empty(),
            },
            SegV::Any => match v {
                JVal::Obj(es) => sel_walk_entries(es, segs.drop_first(), path, es.len()),
                JVal::Arr(xs) => sel_walk_items(xs, segs.drop_first(), path, xs.len()),
                _ => Seq::empty(),
            },
        }
    }
}

pub open spec fn sel_walk_entries(
    es: Seq<(Seq<char>, JVal)>,
    rest: Seq<SegV>,
    path: Seq<char>,
    n: nat,
) -> Seq<Seq<char>>
    decreases rest.len() + 1, 0nat, n,
{
    if n == 0 || n > es.len() {
        Seq::empty()
    } else {
        sel_walk_entries(es, rest, path, (n - 1) as nat) + sel_walk(
            es[n - 1].1,
            rest,
            join_key(path, es[n - 1].0),
        )
    }
}

pub open spec fn sel_walk_items(xs: Seq<JVal>, rest: Seq<SegV>, path: Seq<char>, n: nat) -> Seq<
    Seq<char>,
>
    decreases rest.len() + 1, 0nat, n,
{
    if n == 0 || n > xs.len() {
        Seq::empty()
    } else {
        sel_walk_items(xs, rest, path, (n - 1) as nat) + sel_walk(
            xs[n - 1],
            rest,
            join_index(path, (n - 1) as nat),
        )
    }
}

fn key_segment(segs: &Vec<SelectorSegment>, depth: usize) -> (res: Option<String>)
    requires
        depth < segs.len(),
    ensures
        match res {
            Some(k) => segs@[depth as int]@ == SegV::Key(k@),
            None => !(segs@[depth as int]@ is Key),
        },
{
    match &segs[depth] {
        SelectorSegment::Key(k) => Some(k.clone()),
        _ => None,
    }
}

fn walk_selector(
    cur: &Json,
    segs: &Vec<SelectorSegment>,
    depth: usize,
    path: &Vec<char>,
    out: &mut Vec<String>,
)
    requires
        depth <= segs.len(),
    ensures
        strings_view(final(out)@) == strings_view(old(out)@) + sel_walk(
            cur@,
            sel_view(segs@).skip(depth as int),
            path@,
        ),
    decreases segs.len() - depth,
{
    let ghost start = out@;
    let ghost rest = sel_view(segs@).skip(depth as int);
    if depth == segs.len() {
        out.push(string_of(path));
        assert(strings_view(out@) =~= strings_view(start) + sel_walk(cur@, rest, path@));
        return ;
    }
    assert(rest[0] == segs@[depth as int]@);
    assert(rest.drop_first() =~= sel_view(segs@).skip(depth + 1));
    match &segs[depth] {
        SelectorSegment::Key(k) => {
            match cur {
                Json::Object(es) => {
                    match find_key(es, k) {
                        Some(i) => {
                            proof {
                                lemma_key_index_from(view_entries(es@), k@, 0);
                            }
                            assert(view_entries(es@)[i as int] == es@[i as int]@);
                            let sub = join_key_exec(path, k);
                            walk_selector(&es[i].value, segs, depth + 1, &sub, out);
                        },
                        None => {
                            assert(strings_view(out@) =~= strings_view(start) + sel_walk(
                                cur@,
                                rest,
                                path@,
                            ));
                        },
                    }
                },
                _ => {
                    assert(strings_view(out@) =~= strings_view(start) + sel_walk(cur@, rest, path@));
                },
            }
        },
        SelectorSegment::Index(n) => {
            match cur {
                Json::Array(xs) => {
                    if *n < xs.len() {
                        assert(view_list(xs@)[*n as int] == xs@[*n as int]@);
                        let sub = join_index_exec(path, *n);
                        walk_selector(&xs[*n], segs, depth + 1, &sub, out);
                    } else {
                        assert(view_list(xs@).len() == xs@.len());
                        assert(strings_view(out@) =~= strings_view(start) + sel_walk(
                            cur@,
                            rest,
                            path@,
                        ));
                    }
                },
                _ => {
                    assert(strings_view(out@) =~= strings_view(start) + sel_walk(cur@, rest, path@));
                },
            }
        },
        SelectorSegment::Any => {
            match cur {
                Json::Object(es) => {
                    let ghost ev = view_entries(es@);
                    let mut i: usize = 0;
                    assert(strings_view(out@) =~= strings_view(start) + sel_walk_entries(
                        ev,
                        rest.drop_first(),
                        path@,
                        0,
                    ));
                    while i < es.len()
                        invariant
                            i <= es.len(),
                            depth < segs.len(),
                            ev == view_entries(es@),
                            ev.len() == es.len(),
                            rest.drop_first() == sel_view(segs@).skip(depth + 1),
                            strings_view(out@) == strings_view(start) + sel_walk_entries(
                                ev,
                                rest.drop_first(),
                                path@,
                                i as nat,
                            ),
                        decreases es.len() - i,
                    {
                        assert(ev[i as int] == es@[i as int]@);
                        let sub = join_key_exec(path, &es[i].key);
                        walk_selector(&es[i].value, segs, depth + 1, &sub, out);
                        assert(strings_view(out@) =~= strings_view(start) + sel_walk_entries(
                            ev,
                            rest.drop_first(),
                            path@,
                            (i + 1) as nat,
                        ));
                        i = i + 1;
                    }
                },
                Json::Array(xs) => {
                    let ghost xv = view_list(xs@);
                    let mut i: usize = 0;
                    assert(strings_view(out@) =~= strings_view(start) + sel_walk_items(
                        xv,
                        rest.drop_first(),
                        path@,
                        0,
                    ));
                    while i < xs.len()
                        invariant
                            i <= xs.len(),
                            depth < segs.len(),
                            xv == view_list(xs@),
                            xv.len() == xs.len(),
                            rest.drop_first() == sel_view(segs@).skip(depth + 1),
                            strings_view(out@) == strings_view(start) + sel_walk_items(
                                xv,
                                rest.drop_first(),
                                path@,
                                i as nat,
                            ),
                        decreases xs.len() - i,
                    {
                        assert(xv[i as int] == xs@[i as int]@);
                        let sub = join_index_exec(path, i);
                        walk_selector(&xs[i], segs, depth + 1, &sub, out);
                        assert(strings_view(out@) =~= strings_view(start) + sel_walk_items(
                            xv,
                            rest.drop_first(),
                            path@,
                            (i + 1) as nat,
                        ));
                        i = i + 1;
                    }
                },
                _ => {
                    assert(strings_view(out@) =~= strings_view(start) + sel_walk(cur@, rest, path@));
                },
            }
        },
    }
}

/// Resolve a selector against `root`, returning every concrete address that
/// matches.
pub fn resolve_selector(root: &Json, selector: &Vec<SelectorSegment>) -> (res: Vec<String>)
    ensures
        strings_view(res@) == sel_walk(root@, sel_view(selector@), Seq::empty()),
{
    let mut out: Vec<String> = Vec::new();
    let empty: Vec<char> = Vec::new();
    assert(sel_view(selector@).skip(0) =~= sel_view(selector@));
    walk_selector(root, selector, 0, &empty, &mut out);
    assert(strings_view(out@) =~= sel_walk(root@, sel_view(selector@), Seq::empty()));
    out
}

} // verus!
