//! Address machinery for structural match filtering.
//!
//! Addresses use dotted path notation with bracketed array indices,
//! matching what the build report emits for holes, e.g.
//! `jobs.release.steps[1].with.command`.
//!
//! Addresses also accept `[]` as a wildcard over array elements, giving
//! one-to-many resolution: `updates[].schedule.interval` picks out the
//! `interval` of every element of `updates`.
//!
//! Grammar:
//!
//! ```text
//! address  := (segment)*
//! segment  := "." key        ; object key
//!           | "[" index "]"  ; literal array index
//!           | "[]"           ; any array element (wildcard)
//! ```

use vstd::prelude::*;

use crate::json::{JVal, Json, JsonEntry, group_json_view, json_clone, json_text, quoted, view_entries, view_list};
use crate::text::{
    append, append_str, chars_of, contains_sub, decimal, decimal_exec, find_from, find_from_exec,
    has_sub, is_digit, lemma_decimal_digits, lemma_find_from, lemma_parse_decimal, parse_usize,
    parse_usize_exec, slice, string_of,
};

verus! {

broadcast use group_json_view;

/// Model of a segment.
pub enum SegV {
    Key(Seq<char>),
    Index(usize),
    Any,
}

/// One segment of an address.
#[derive(Debug, Clone, PartialEq, Eq)]
pub enum Segment {
    /// An object key.
    Key(String),
    /// A literal array index.
    Index(usize),
    /// Any array element.
    Any,
}

impl View for Segment {
    type V = SegV;

    open spec fn view(&self) -> SegV {
        match self {
            Segment::Key(k) => SegV::Key(k@),
            Segment::Index(n) => SegV::Index(*n),
            Segment::Any => SegV::Any,
        }
    }
}

pub open spec fn segs_view(v: Seq<Segment>) -> Seq<SegV> {
    v.map_values(|s: Segment| s@)
}

/// Why a path failed to parse.
pub enum ScanError {
    /// A `[` with no `]` after it.
    Unclosed,
    /// Non-empty bracket contents that are not a `usize`.
    NonNumeric(Seq<char>),
}

/// Pushes the pending key `s[start..i]`, if it is non-empty.
pub open spec fn flush(acc: Seq<SegV>, s: Seq<char>, start: int, i: int) -> Seq<SegV> {
    if i > start {
        acc.push(SegV::Key(s.subrange(start, i)))
    } else {
        acc
    }
}

/// The segment scanner, from position `i` with the pending key starting at
/// `start` and the segments found so far in `acc`.
pub open spec fn scan(s: Seq<char>, start: int, i: int, acc: Seq<SegV>) -> Result<
    Seq<SegV>,
    ScanError,
>
    decreases s.len() - i,
{
    if i < 0 || start < 0 || start > i {
        Err(ScanError::Unclosed)
    } else if i >= s.len() {
        Ok(flush(acc, s, start, s.len() as int))
    } else if s[i] == '.' {
        scan(s, i + 1, i + 1, flush(acc, s, start, i))
    } else if s[i] == '[' {
        let acc1 = flush(acc, s, start, i);
        match find_from(s, ']', i) {
            None => Err(ScanError::Unclosed),
            Some(r) => {
                proof {
                    lemma_find_from(s, ']', i);
                }
                let inner = s.subrange(i + 1, r);
                if inner.len() == 0 {
                    scan(s, r + 1, r + 1, acc1.push(SegV::Any))
                } else {
                    match parse_usize(inner) {
                        Some(n) => scan(s, r + 1, r + 1, acc1.push(SegV::Index(n))),
                        None => Err(ScanError::NonNumeric(inner)),
                    }
                }
            },
        }
    } else {
        scan(s, start, i + 1, acc)
    }
}

/// The segments of an address, or why it is malformed.
pub open spec fn parse_segments(s: Seq<char>) -> Result<Seq<SegV>, ScanError> {
    scan(s, 0, 0, Seq::empty())
}

proof fn lemma_find_from_shift(s: Seq<char>, c: char, j: int)
    requires
        s.len() > 0,
        0 <= j,
    ensures
        find_from(s, c, j + 1) == match find_from(s.drop_first(), c, j) {
            Some(r) => Some(r + 1),
            None => None::<int>,
        },
    decreases s.len() - j,
{
    if j + 1 < s.len() && s[j + 1] != c {
        lemma_find_from_shift(s, c, j + 1);
    }
}

proof fn lemma_scan_shift(s: Seq<char>, start: int, i: int, acc: Seq<SegV>)
    requires
        s.len() > 0,
        0 <= start <= i,
    ensures
        scan(s, start + 1, i + 1, acc) == scan(s.drop_first(), start, i, acc),
    decreases s.len() - i,
{
    let t = s.drop_first();
    if i >= t.len() {
        if start < t.len() {
            assert(s.subrange(start + 1, s.len() as int) =~= t.subrange(start, t.len() as int));
        }
    } else {
        assert(s[i + 1] == t[i]);
        assert(s.subrange(start + 1, i + 1) =~= t.subrange(start, i));
        if t[i] == '.' {
            lemma_scan_shift(s, i + 1, i + 1, flush(acc, t, start, i));
        } else if t[i] == '[' {
            lemma_find_from_shift(s, ']', i);
            lemma_find_from(t, ']', i);
            match find_from(t, ']', i) {
                None => {},
                Some(r) => {
                    assert(s.subrange(i + 2, r + 1) =~= t.subrange(i + 1, r));
                    let acc1 = flush(acc, t, start, i);
                    let inner = t.subrange(i + 1, r);
                    if inner.len() == 0 {
                        lemma_scan_shift(s, r + 1, r + 1, acc1.push(SegV::Any));
                    } else {
                        match parse_usize(inner) {
                            Some(n) => lemma_scan_shift(s, r + 1, r + 1, acc1.push(SegV::Index(n))),
                            None => {},
                        }
                    }
                },
            }
        } else {
            lemma_scan_shift(s, start, i + 1, acc);
        }
    }
}

/// A leading `.` does not change the segments of a path.
pub proof fn lemma_leading_dot_ignored(s: Seq<char>)
    requires
        s.len() > 0,
        s[0] == '.',
    ensures
        parse_segments(s) == parse_segments(s.drop_first()),
{
    lemma_scan_shift(s, 0, 0, Seq::empty());
    assert(flush(Seq::<SegV>::empty(), s, 0, 0) == Seq::<SegV>::empty());
}

/// The text of segments as an address: keys joined by `.`, indices as
/// `[n]`, wildcards as `[]`.
pub open spec fn render_address(segs: Seq<SegV>) -> Seq<char>
    decreases segs.len(),
{
    if segs.len() == 0 {
        Seq::empty()
    } else {
        let p = render_address(segs.drop_last());
        match segs.last() {
            SegV::Key(k) => join_key(p, k),
            SegV::Index(n) => join_index(p, n as nat),
            SegV::Any => p + seq!['[', ']'],
        }
    }
}

/// A key an address can spell: not empty, with no `.` or `[`.
pub open spec fn plain_key(k: Seq<char>) -> bool {
    k.len() > 0 && forall|i: int| 0 <= i < k.len() ==> #[trigger] k[i] != '.' && k[i] != '['
}

pub open spec fn renderable(segs: Seq<SegV>) -> bool {
    forall|i: int| 0 <= i < segs.len() ==> match #[trigger] segs[i] {
        SegV::Key(k) => plain_key(k),
        _ => true,
    }
}

/// The text segment `k` adds to the address of the segments before it.
pub open spec fn seg_piece(segs: Seq<SegV>, k: int) -> Seq<char> {
    match segs[k] {
        SegV::Key(key) => if k == 0 { key } else { seq!['.'] + key },
        SegV::Index(n) => seq!['['] + decimal(n as nat) + seq![']'],
        SegV::Any => seq!['[', ']'],
    }
}

proof fn lemma_render_step(segs: Seq<SegV>, k: int)
    requires
        renderable(segs),
        0 <= k < segs.len(),
    ensures
        render_address(segs.take(k + 1)) == render_address(segs.take(k)) + seg_piece(segs, k),
        k > 0 ==> render_address(segs.take(k)).len() > 0,
    decreases k,
{
    let t = segs.take(k + 1);
    assert(t.drop_last() =~= segs.take(k));
    assert(t.last() == segs[k]);
    if k > 0 {
        lemma_render_step(segs, k - 1);
        match segs[k - 1] {
            SegV::Key(key) => assert(plain_key(key)),
            _ => {},
        }
        assert(seg_piece(segs, k - 1).len() > 0);
    } else {
        assert(segs.take(0) =~= Seq::<SegV>::empty());
    }
    match segs[k] {
        SegV::Key(key) => {},
        SegV::Index(n) => {
            assert(render_address(t) =~= render_address(segs.take(k)) + seg_piece(segs, k));
        },
        SegV::Any => {
            assert(render_address(t) =~= render_address(segs.take(k)) + seg_piece(segs, k));
        },
    }
    if k > 0 {
        match segs[k] {
            SegV::Key(key) => {
                assert(render_address(t) =~= render_address(segs.take(k)) + seg_piece(segs, k));
            },
            _ => {},
        }
    }
}

proof fn lemma_render_prefix(segs: Seq<SegV>, k: int, j: int)
    requires
        renderable(segs),
        0 <= k <= j <= segs.len(),
    ensures
        render_address(segs.take(k)).len() <= render_address(segs.take(j)).len(),
        render_address(segs.take(j)).subrange(0, render_address(segs.take(k)).len() as int)
            == render_address(segs.take(k)),
    decreases j - k,
{
    if k < j {
        lemma_render_prefix(segs, k, j - 1);
        lemma_render_step(segs, j - 1);
        let a = render_address(segs.take(j - 1));
        let b = render_address(segs.take(k));
        assert(render_address(segs.take(j)).subrange(0, b.len() as int) =~= a.subrange(0, b.len() as int));
    }
}

proof fn lemma_scan_skip(s: Seq<char>, st: int, i: int, j: int, acc: Seq<SegV>)
    requires
        0 <= st <= i <= j <= s.len(),
        forall|m: int| i <= m < j ==> #[trigger] s[m] != '.' && s[m] != '[',
    ensures
        scan(s, st, i, acc) == scan(s, st, j, acc),
    decreases j - i,
{
    if i < j {
        lemma_scan_skip(s, st, i + 1, j, acc);
    }
}

proof fn lemma_find_at(s: Seq<char>, c: char, i: int, j: int)
    requires
        0 <= i <= j < s.len(),
        s[j] == c,
        forall|m: int| i <= m < j ==> #[trigger] s[m] != c,
    ensures
        find_from(s, c, i) == Some(j),
    decreases j - i,
{
    if i < j {
        lemma_find_at(s, c, i + 1, j);
    }
}

pub open spec fn ends_in_key(segs: Seq<SegV>, k: int) -> bool {
    k > 0 && segs[k - 1] is Key
}

pub open spec fn key_len(seg: SegV) -> int {
    match seg {
        SegV::Key(key) => key.len() as int,
        _ => 0,
    }
}

proof fn lemma_scan_render(segs: Seq<SegV>, k: int)
    requires
        renderable(segs),
        0 <= k <= segs.len(),
    ensures
        ({
            let s = render_address(segs);
            let l = render_address(segs.take(k)).len() as int;
            if ends_in_key(segs, k) {
                scan(s, l - key_len(segs[k - 1]), l, segs.take(k - 1)) == Ok::<Seq<SegV>, ScanError>(segs)
            } else {
                scan(s, l, l, segs.take(k)) == Ok::<Seq<SegV>, ScanError>(segs)
            }
        }),
    decreases segs.len() - k,
{
    let s = render_address(segs);
    let n = segs.len() as int;
    assert(segs.take(n) =~= segs);
    let l = render_address(segs.take(k)).len() as int;
    lemma_render_prefix(segs, k, n);
    // What the pending key flushes to.
    let st = if ends_in_key(segs, k) { l - key_len(segs[k - 1]) } else { l };
    let acc = if ends_in_key(segs, k) { segs.take(k - 1) } else { segs.take(k) };
    if ends_in_key(segs, k) {
        lemma_render_step(segs, k - 1);
        lemma_render_prefix(segs, k - 1, n);
        let key = segs[k - 1]->Key_0;
        assert(plain_key(key));
        let piece = seg_piece(segs, k - 1);
        let l0 = render_address(segs.take(k - 1)).len() as int;
        assert(s.subrange(l0, l) =~= piece) by {
            assert(render_address(segs.take(k)) == render_address(segs.take(k - 1)) + piece);
            assert forall|m: int| l0 <= m < l implies s[m] == piece[m - l0] by {
                assert(s[m] == render_address(segs.take(k))[m]);
            }
        }
        assert(s.subrange(st, l) =~= key) by {
            assert forall|m: int| 0 <= m < key.len() implies s[st + m] == key[m] by {
                if k - 1 == 0 {
                    assert(s[st + m] == piece[m]);
                } else {
                    assert(s[st + m] == piece[m + 1]);
                }
            }
        }
        assert(segs.take(k - 1).push(SegV::Key(key)) =~= segs.take(k));
        assert(flush(acc, s, st, l) == segs.take(k));
    } else {
        assert(flush(acc, s, st, l) == segs.take(k));
    }
    if k == n {
        assert(l == s.len());
    } else {
        lemma_render_step(segs, k);
        lemma_render_prefix(segs, k + 1, n);
        let piece = seg_piece(segs, k);
        let l1 = render_address(segs.take(k + 1)).len() as int;
        assert(l1 == l + piece.len());
        assert forall|m: int| 0 <= m < piece.len() implies s[l + m] == piece[m] by {
            assert(s[l + m] == render_address(segs.take(k + 1))[l + m]);
        }
        lemma_scan_render(segs, k + 1);
        match segs[k] {
            SegV::Key(key) => {
                assert(plain_key(key));
                assert(ends_in_key(segs, k + 1));
                if k == 0 {
                    assert(l == 0);
                    assert forall|m: int| 0 <= m < l1 implies #[trigger] s[m] != '.' && s[m] != '[' by {
                        assert(s[0 + m] == piece[m]);
                        assert(key[m] != '.' && key[m] != '[');
                    }
                    assert(segs.take(0) =~= Seq::<SegV>::empty());
                    lemma_scan_skip(s, 0, 0, l1, Seq::empty());
                } else {
                    assert(s[l + 0] == piece[0]);
                    assert forall|m: int| l + 1 <= m < l1 implies #[trigger] s[m] != '.' && s[m] != '[' by {
                        assert(s[l + (m - l)] == piece[m - l]);
                        assert(piece[m - l] == key[m - l - 1]);
                        assert(key[m - l - 1] != '.' && key[m - l - 1] != '[');
                    }
                    lemma_scan_skip(s, l + 1, l + 1, l1, segs.take(k));
                }
            },
            SegV::Index(idx) => {
                let d = decimal(idx as nat);
                lemma_decimal_digits(idx as nat);
                lemma_parse_decimal(idx);
                assert(s[l + 0] == piece[0]);
                let r = l + 1 + d.len();
                assert(s[l + (1 + d.len())] == piece[1 + d.len() as int]);
                assert forall|m: int| l <= m < r implies #[trigger] s[m] != ']' by {
                    assert(s[l + (m - l)] == piece[m - l]);
                    if m > l {
                        assert(piece[m - l] == d[m - l - 1]);
                        assert(is_digit(d[m - l - 1]));
                    }
                }
                lemma_find_at(s, ']', l, r);
                assert(s.subrange(l + 1, r) =~= d) by {
                    assert forall|m: int| 0 <= m < d.len() implies s[l + 1 + m] == d[m] by {
                        assert(s[l + (1 + m)] == piece[1 + m]);
                    }
                }
                assert(segs.take(k).push(SegV::Index(idx)) =~= segs.take(k + 1));
                assert(r + 1 == l1);
            },
            SegV::Any => {
                assert(s[l + 0] == piece[0]);
                assert(s[l + 1] == piece[1]);
                lemma_find_at(s, ']', l, l + 1);
                assert(s.subrange(l + 1, l + 1) =~= Seq::<char>::empty());
                assert(segs.take(k).push(SegV::Any) =~= segs.take(k + 1));
            },
        }
    }
}

/// Rendering segments as an address and parsing it gives them back, for
/// keys an address can spell.
pub proof fn lemma_address_round_trip(segs: Seq<SegV>)
    requires
        renderable(segs),
    ensures
        parse_segments(render_address(segs)) == Ok::<Seq<SegV>, ScanError>(segs),
{
    lemma_scan_render(segs, 0);
    assert(segs.take(0) =~= Seq::<SegV>::empty());
}

/// Exec form of `parse_segments`, over characters.
pub fn scan_segments(s: &Vec<char>) -> (res: Result<Vec<Segment>, (bool, Vec<char>)>)
    ensures
        match res {
            Ok(v) => parse_segments(s@) == Ok::<Seq<SegV>, ScanError>(segs_view(v@)),
            Err((unclosed, inner)) => if unclosed {
                parse_segments(s@) == Err::<Seq<SegV>, ScanError>(ScanError::Unclosed)
            } else {
                parse_segments(s@) == Err::<Seq<SegV>, ScanError>(ScanError::NonNumeric(inner@))
            },
        },
{
    let mut out: Vec<Segment> = Vec::new();
    let mut start: usize = 0;
    let mut i: usize = 0;
    assert(segs_view(out@) =~= Seq::<SegV>::empty());
    while i < s.len()
        invariant
            start <= i <= s.len(),
            parse_segments(s@) == scan(s@, start as int, i as int, segs_view(out@)),
        decreases s.len() - i,
    {
        let ghost acc = segs_view(out@);
        if s[i] == '.' {
            if i > start {
                let k = slice(s, start, i);
                out.push(Segment::Key(string_of(&k)));
                assert(segs_view(out@) =~= flush(acc, s@, start as int, i as int));
            } else {
                assert(segs_view(out@) =~= flush(acc, s@, start as int, i as int));
            }
            i = i + 1;
            start = i;
        } else if s[i] == '[' {
            if i > start {
                let k = slice(s, start, i);
                out.push(Segment::Key(string_of(&k)));
            }
            assert(segs_view(out@) =~= flush(acc, s@, start as int, i as int));
            let ghost acc1 = segs_view(out@);
            proof {
                lemma_find_from(s@, ']', i as int);
            }
            match find_from_exec(s, ']', i) {
                None => {
                    return Err((true, Vec::new()));
                },
                Some(r) => {
                    let inner = slice(s, i + 1, r);
                    if inner.len() == 0 {
                        out.push(Segment::Any);
                        assert(segs_view(out@) =~= acc1.push(SegV::Any));
                    } else {
                        match parse_usize_exec(&inner) {
                            Some(n) => {
                                out.push(Segment::Index(n));
                                assert(segs_view(out@) =~= acc1.push(SegV::Index(n)));
                            },
                            None => {
                                return Err((false, inner));
                            },
                        }
                    }
                    i = r + 1;
                    start = i;
                },
            }
        } else {
            i = i + 1;
        }
    }
    let ghost acc = segs_view(out@);
    if start < s.len() {
        let k = slice(s, start, s.len());
        out.push(Segment::Key(string_of(&k)));
    }
    assert(segs_view(out@) =~= flush(acc, s@, start as int, s.len() as int));
    Ok(out)
}

/// A malformed address.
#[derive(Debug, Clone, PartialEq, Eq)]
pub enum AddressError {
    /// `[` without a matching `]`.
    UnclosedBracket { address: String },
    /// Bracket contents that are neither empty nor an index.
    NonNumericIndex { index: String, address: String },
}

/// Builds `prefix` followed by the quoted form of `arg`.
pub open spec fn with_quoted(prefix: Seq<char>, arg: Seq<char>) -> Seq<char> {
    prefix + quoted(arg)
}

pub fn quoted_string(v: &Vec<char>) -> (res: Vec<char>)
    ensures
        res@ == quoted(v@),
{
    let mut out: Vec<char> = Vec::new();
    crate::json::push_quoted(&mut out, v);
    assert(out@ =~= quoted(v@));
    out
}

impl AddressError {
    /// The error's text: `unclosed `[` in address: "..."` or
    /// `non-numeric array index "..." in address: "..."`.
    pub fn message(&self) -> (res: String)
        ensures
            res@ == match self {
                AddressError::UnclosedBracket { address } => "unclosed `[` in address: "@ + quoted(
                    address@,
                ),
                AddressError::NonNumericIndex { index, address } => "non-numeric array index "@
                    + quoted(index@) + " in address: "@ + quoted(address@),
            },
    {
        let mut out: Vec<char> = Vec::new();
        match self {
            AddressError::UnclosedBracket { address } => {
                append_str(&mut out, "unclosed `[` in address: ");
                let q = quoted_string(&chars_of(address.as_str()));
                append(&mut out, &q);
            },
            AddressError::NonNumericIndex { index, address } => {
                append_str(&mut out, "non-numeric array index ");
                let q = quoted_string(&chars_of(index.as_str()));
                append(&mut out, &q);
                append_str(&mut out, " in address: ");
                let q2 = quoted_string(&chars_of(address.as_str()));
                append(&mut out, &q2);
            },
        }
        string_of(&out)
    }
}

/// The error `parse_address` reports for a malformed address.
pub open spec fn address_error_of(addr: Seq<char>, e: ScanError) -> (Seq<char>, Option<Seq<char>>) {
    match e {
        ScanError::Unclosed => (addr, None),
        ScanError::NonNumeric(inner) => (addr, Some(inner)),
    }
}

/// Parse an address string into segments.
///
/// Returns an error for malformed brackets (unclosed `[`, non-numeric
/// non-empty bracket contents).
pub fn parse_address(addr: &str) -> (res: Result<Vec<Segment>, AddressError>)
    ensures
        match parse_segments(addr@) {
            Ok(segs) => res matches Ok(v) && segs_view(v@) == segs,
            Err(ScanError::Unclosed) => res matches Err(AddressError::UnclosedBracket { address })
                && address@ == addr@,
            Err(ScanError::NonNumeric(inner)) => res matches Err(
                AddressError::NonNumericIndex { index, address },
            ) && index@ == inner && address@ == addr@,
        },
{
    let s = chars_of(addr);
    match scan_segments(&s) {
        Ok(v) => Ok(v),
        Err((unclosed, inner)) => {
            if unclosed {
                Err(AddressError::UnclosedBracket { address: addr.to_owned() })
            } else {
                Err(AddressError::NonNumericIndex { index: string_of(&inner), address: addr.to_owned() })
            }
        },
    }
}

// ---------------------------------------------------------------------------
// Navigation
// ---------------------------------------------------------------------------

/// Index of the first entry with key `k`, at or after `i`.
pub open spec fn key_index_from(es: Seq<(Seq<char>, JVal)>, k: Seq<char>, i: int) -> Option<int>
    decreases es.len() - i,
{
    if i < 0 || i >= es.len() {
        None
    } else if es[i].0 == k {
        Some(i)
    } else {
        key_index_from(es, k, i + 1)
    }
}

pub open spec fn key_index(es: Seq<(Seq<char>, JVal)>, k: Seq<char>) -> Option<int> {
    key_index_from(es, k, 0)
}

/// The value of the first entry with key `k` (what a map lookup gives).
pub open spec fn lookup(es: Seq<(Seq<char>, JVal)>, k: Seq<char>) -> Option<JVal> {
    match key_index(es, k) {
        Some(i) => Some(es[i].1),
        None => None,
    }
}

pub proof fn lemma_key_index_from(es: Seq<(Seq<char>, JVal)>, k: Seq<char>, i: int)
    requires
        0 <= i,
    ensures
        match key_index_from(es, k, i) {
            Some(j) => i <= j < es.len() && es[j].0 == k && forall|m: int|
                i <= m < j ==> es[m].0 != k,
            None => forall|m: int| i <= m < es.len() ==> es[m].0 != k,
        },
    decreases es.len() - i,
{
    if i < es.len() && es[i].0 != k {
        lemma_key_index_from(es, k, i + 1);
    }
}

/// Position of the first entry of `v` whose key is `k`.
pub fn find_key(v: &Vec<JsonEntry>, k: &String) -> (res: Option<usize>)
    ensures
        match res {
            Some(i) => key_index(view_entries(v@), k@) == Some(i as int) && i < v.len(),
            None => key_index(view_entries(v@), k@) is None,
        },
{
    let ghost es = view_entries(v@);
    let mut i: usize = 0;
    while i < v.len()
        invariant
            i <= v.len(),
            es == view_entries(v@),
            es.len() == v.len(),
            key_index(es, k@) == key_index_from(es, k@, i as int),
        decreases v.len() - i,
    {
        assert(es[i as int] == v@[i as int]@);
        if v[i].key == *k {
            return Some(i);
        }
        i = i + 1;
    }
    None
}

pub open spec fn join_key(path: Seq<char>, k: Seq<char>) -> Seq<char> {
    if path.len() == 0 {
        k
    } else {
        path + seq!['.'] + k
    }
}

pub open spec fn join_index(path: Seq<char>, i: nat) -> Seq<char> {
    path + seq!['['] + decimal(i) + seq![']']
}

pub fn join_key_exec(path: &Vec<char>, k: &String) -> (res: Vec<char>)
    ensures
        res@ == join_key(path@, k@),
{
    let kc = chars_of(k.as_str());
    if path.len() == 0 {
        kc
    } else {
        let mut out = slice(path, 0, path.len());
        out.push('.');
        append(&mut out, &kc);
        assert(path@.subrange(0, path@.len() as int) =~= path@);
        out
    }
}

pub fn join_index_exec(path: &Vec<char>, i: usize) -> (res: Vec<char>)
    ensures
        res@ == join_index(path@, i as nat),
{
    let mut out = slice(path, 0, path.len());
    assert(path@.subrange(0, path@.len() as int) =~= path@);
    out.push('[');
    let d = decimal_exec(i);
    append(&mut out, &d);
    out.push(']');
    assert(out@ =~= join_index(path@, i as nat));
    out
}

/// Follows concrete segments from `v`; `None` when a step is missing or a
/// wildcard.
pub open spec fn walk_segs(v: JVal, segs: Seq<SegV>) -> Option<JVal>
    decreases segs.len(),
{
    if segs.len() == 0 {
        Some(v)
    } else {
        match segs[0] {
            SegV::Key(k) => match v {
                JVal::Obj(es) => match lookup(es, k) {
                    Some(next) => walk_segs(next, segs.drop_first()),
                    None => None,
                },
                _ => None,
            },
            SegV::Index(n) => match v {
                JVal::Arr(xs) => if n < xs.len() {
                    walk_segs(xs[n as int], segs.drop_first())
                } else {
                    None
                },
                _ => None,
            },
            SegV::Any => None,
        }
    }
}

/// The subtree at a concrete address; the empty address is the root.
pub open spec fn subtree_at_spec(v: JVal, addr: Seq<char>) -> Option<JVal> {
    if addr.len() == 0 {
        Some(v)
    } else {
        match parse_segments(addr) {
            Ok(segs) => walk_segs(v, segs),
            Err(_) => None,
        }
    }
}

/// Follows `segs` from `root`, returning a reference to the node reached.
#[verifier::spinoff_prover]
#[verifier::rlimit(30)]
pub fn walk_ref<'a>(root: &'a Json, segs: &Vec<Segment>) -> (res: Option<&'a Json>)
    ensures
        match res {
            Some(j) => walk_segs(root@, segs_view(segs@)) == Some(j@),
            None => walk_segs(root@, segs_view(segs@)) is None,
        },
{
    let ghost sv = segs_view(segs@);
    let mut cur: &'a Json = root;
    let mut d: usize = 0;
    assert(sv.skip(0) =~= sv);
    while d < segs.len()
        invariant
            d <= segs.len(),
            sv == segs_view(segs@),
            sv.len() == segs.len(),
            walk_segs(root@, sv) == walk_segs(cur@, sv.skip(d as int)),
        decreases segs.len() - d,
    {
        assert(sv.skip(d as int).drop_first() =~= sv.skip(d + 1));
        assert(sv.skip(d as int)[0] == segs@[d as int]@);
        match &segs[d] {
            Segment::Key(k) => {
                match cur {
                    Json::Object(es) => {
                        match find_key(es, k) {
                            Some(i) => {
                                proof {
                                    lemma_key_index_from(view_entries(es@), k@, 0);
                                }
                                assert(view_entries(es@)[i as int] == es@[i as int]@);
                                cur = &es[i].value;
                            },
                            None => {
                                return None;
                            },
                        }
                    },
                    _ => {
                        return None;
                    },
                }
            },
            Segment::Index(n) => {
                match cur {
                    Json::Array(xs) => {
                        if *n < xs.len() {
                            assert(view_list(xs@)[*n as int] == xs@[*n as int]@);
                            cur = &xs[*n];
                        } else {
                            assert(view_list(xs@).len() == xs@.len());
                            return None;
                        }
                    },
                    _ => {
                        return None;
                    },
                }
            },
            Segment::Any => {
                return None;
            },
        }
        d = d + 1;
    }
    assert(sv.skip(d as int).len() == 0);
    Some(cur)
}

/// Resolve a concrete address to a subtree in `root`. Returns `None` if the
/// address doesn't exist, is malformed, or contains a wildcard.
pub fn subtree_at(root: &Json, addr: &str) -> (res: Option<Json>)
    ensures
        match res {
            Some(j) => subtree_at_spec(root@, addr@) == Some(j@),
            None => subtree_at_spec(root@, addr@) is None,
        },
{
    if addr.is_empty() {
        return Some(json_clone(root));
    }
    let s = chars_of(addr);
    match scan_segments(&s) {
        Ok(segs) => match walk_ref(root, &segs) {
            Some(j) => Some(json_clone(j)),
            None => None,
        },
        Err(_) => None,
    }
}

// ---------------------------------------------------------------------------
// Wildcard resolution
// ---------------------------------------------------------------------------

pub open spec fn pairs_view(v: Seq<(String, Json)>) -> Seq<(Seq<char>, JVal)> {
    v.map_values(|p: (String, Json)| (p.0@, p.1@))
}

/// Every `(concrete address, value)` that `segs` reaches from `v`, where
/// `path` is the address of `v`.
pub open spec fn walk_rel(v: JVal, segs: Seq<SegV>, path: Seq<char>) -> Seq<(Seq<char>, JVal)>
    decreases segs.len(), 1nat, 0nat,
{
    if segs.len() == 0 {
        seq![(path, v)]
    } else {
        match segs[0] {
            SegV::Key(k) => match v {
                JVal::Obj(es) => match lookup(es, k) {
                    Some(next) => walk_rel(next, segs.drop_first(), join_key(path, k)),
                    None => Seq::empty(),
                },
                _ => Seq::empty(),
            },
            SegV::Index(n) => match v {
                JVal::Arr(xs) => if n < xs.len() {
                    walk_rel(xs[n as int], segs.drop_first(), join_index(path, n as nat))
                } else {
                    Seq::empty()
                },
                _ => Seq::empty(),
            },
            SegV::Any => match v {
                JVal::Arr(xs) => walk_rel_items(xs, segs.drop_first(), path, xs.len()),
                _ => Seq::empty(),
            },
        }
    }
}

/// `walk_rel` over the first `n` elements of an array, in order.
pub open spec fn walk_rel_items(xs: Seq<JVal>, rest: Seq<SegV>, path: Seq<char>, n: nat) -> Seq<
    (Seq<char>, JVal),
>
    decreases rest.len() + 1, 0nat, n,
{
    if n == 0 || n > xs.len() {
        Seq::empty()
    } else {
        walk_rel_items(xs, rest, path, (n - 1) as nat) + walk_rel(
            xs[n - 1],
            rest,
            join_index(path, (n - 1) as nat),
        )
    }
}

fn walk_rel_exec(
    cur: &Json,
    segs: &Vec<Segment>,
    depth: usize,
    path: &Vec<char>,
    out: &mut Vec<(String, Json)>,
)
    requires
        depth <= segs.len(),
    ensures
        pairs_view(final(out)@) == pairs_view(old(out)@) + walk_rel(
            cur@,
            segs_view(segs@).skip(depth as int),
            path@,
        ),
    decreases segs.len() - depth,
{
    let ghost start = out@;
    let ghost rest = segs_view(segs@).skip(depth as int);
    if depth == segs.len() {
        out.push((string_of(path), json_clone(cur)));
        assert(pairs_view(out@) =~= pairs_view(start) + walk_rel(cur@, rest, path@));
        return ;
    }
    assert(rest[0] == segs@[depth as int]@);
    assert(rest.drop_first() =~= segs_view(segs@).skip(depth + 1));
    match &segs[depth] {
        Segment::Key(k) => {
            match cur {
                Json::Object(es) => {
                    match find_key(es, k) {
                        Some(i) => {
                            proof {
                                lemma_key_index_from(view_entries(es@), k@, 0);
                            }
                            assert(view_entries(es@)[i as int] == es@[i as int]@);
                            let sub = join_key_exec(path, k);
                            walk_rel_exec(&es[i].value, segs, depth + 1, &sub, out);
                        },
                        None => {
                            assert(pairs_view(out@) =~= pairs_view(start) + walk_rel(cur@, rest, path@));
                        },
                    }
                },
                _ => {
                    assert(pairs_view(out@) =~= pairs_view(start) + walk_rel(cur@, rest, path@));
                },
            }
        },
        Segment::Index(n) => {
            match cur {
                Json::Array(xs) => {
                    if *n < xs.len() {
                        assert(view_list(xs@)[*n as int] == xs@[*n as int]@);
                        let sub = join_index_exec(path, *n);
                        walk_rel_exec(&xs[*n], segs, depth + 1, &sub, out);
                    } else {
                        assert(view_list(xs@).len() == xs@.len());
                        assert(pairs_view(out@) =~= pairs_view(start) + walk_rel(cur@, rest, path@));
                    }
                },
                _ => {
                    assert(pairs_view(out@) =~= pairs_view(start) + walk_rel(cur@, rest, path@));
                },
            }
        },
        Segment::Any => {
            match cur {
                Json::Array(xs) => {
                    let ghost xv = view_list(xs@);
                    let mut i: usize = 0;
                    assert(pairs_view(out@) =~= pairs_view(start) + walk_rel_items(xv, rest.drop_first(), path@, 0));
                    while i < xs.len()
                        invariant
                            i <= xs.len(),
                            depth < segs.len(),
                            xv == view_list(xs@),
                            xv.len() == xs.len(),
                            rest == segs_view(segs@).skip(depth as int),
                            rest.drop_first() == segs_view(segs@).skip(depth + 1),
                            pairs_view(out@) == pairs_view(start) + walk_rel_items(
                                xv,
                                rest.drop_first(),
                                path@,
                                i as nat,
                            ),
                        decreases xs.len() - i,
                    {
                        let ghost before = out@;
                        assert(xv[i as int] == xs@[i as int]@);
                        let sub = join_index_exec(path, i);
                        walk_rel_exec(&xs[i], segs, depth + 1, &sub, out);
                        assert(pairs_view(out@) =~= pairs_view(start) + walk_rel_items(
                            xv,
                            rest.drop_first(),
                            path@,
                            (i + 1) as nat,
                        ));
                        i = i + 1;
                    }
                },
                _ => {
                    assert(pairs_view(out@) =~= pairs_view(start) + walk_rel(cur@, rest, path@));
                },
            }
        },
    }
}

/// The `(concrete address, value)` pairs a path resolves to, or why the
/// path is malformed.
pub open spec fn resolve_rel_path_spec(v: JVal, path: Seq<char>) -> Result<
    Seq<(Seq<char>, JVal)>,
    ScanError,
> {
    match parse_segments(path) {
        Ok(segs) => Ok(walk_rel(v, segs, Seq::empty())),
        Err(e) => Err(e),
    }
}

/// Every object key in `v` is one an address can spell, and every array
/// is indexed by `usize`.
pub open spec fn plain_keys(v: JVal) -> bool
    decreases v,
{
    match v {
        JVal::Arr(xs) => xs.len() <= usize::MAX && forall|i: int| 0 <= i < xs.len() ==> plain_keys(#[trigger] xs[i]),
        JVal::Obj(es) => forall|i: int|
            0 <= i < es.len() ==> plain_key(#[trigger] es[i].0) && plain_keys(es[i].1),
        _ => true,
    }
}

/// No segment is a wildcard.
pub open spec fn concrete(segs: Seq<SegV>) -> bool {
    forall|i: int| 0 <= i < segs.len() ==> !(#[trigger] segs[i] is Any)
}

/// `c` is a concrete path from `root` whose address is `h.0` and whose
/// end is `h.1`.
pub open spec fn hit_witness(root: JVal, c: Seq<SegV>, h: (Seq<char>, JVal)) -> bool {
    renderable(c) && concrete(c) && render_address(c) == h.0 && walk_segs(root, c) == Some(h.1)
}

proof fn lemma_walk_segs_push(root: JVal, pre: Seq<SegV>, sg: SegV)
    ensures
        walk_segs(root, pre.push(sg)) == match walk_segs(root, pre) {
            Some(v) => walk_segs(v, seq![sg]),
            None => None,
        },
    decreases pre.len(),
{
    if pre.len() == 0 {
        assert(pre.push(sg) =~= seq![sg]);
    } else {
        assert(pre.push(sg).drop_first() =~= pre.drop_first().push(sg));
        assert(pre.push(sg)[0] == pre[0]);
        match pre[0] {
            SegV::Key(k) => match root {
                JVal::Obj(es) => match lookup(es, k) {
                    Some(next) => lemma_walk_segs_push(next, pre.drop_first(), sg),
                    None => {},
                },
                _ => {},
            },
            SegV::Index(n) => match root {
                JVal::Arr(xs) => if n < xs.len() {
                    lemma_walk_segs_push(xs[n as int], pre.drop_first(), sg);
                },
                _ => {},
            },
            SegV::Any => {},
        }
    }
}

proof fn lemma_extend_witness(root: JVal, pre: Seq<SegV>, sg: SegV, v: JVal, next: JVal)
    requires
        renderable(pre),
        concrete(pre),
        walk_segs(root, pre) == Some(v),
        walk_segs(v, seq![sg]) == Some(next),
        !(sg is Any),
        sg matches SegV::Key(k) ==> plain_key(k),
    ensures
        renderable(pre.push(sg)),
        concrete(pre.push(sg)),
        walk_segs(root, pre.push(sg)) == Some(next),
        render_address(pre.push(sg)) == match sg {
            SegV::Key(k) => join_key(render_address(pre), k),
            SegV::Index(n) => join_index(render_address(pre), n as nat),
            SegV::Any => render_address(pre),
        },
{
    lemma_walk_segs_push(root, pre, sg);
    let p2 = pre.push(sg);
    assert(p2.drop_last() =~= pre);
    assert forall|i: int| 0 <= i < p2.len() implies match #[trigger] p2[i] {
        SegV::Key(k) => plain_key(k),
        _ => true,
    } by {
        if i < pre.len() {
            assert(p2[i] == pre[i]);
        }
    }
    assert forall|i: int| 0 <= i < p2.len() implies !(#[trigger] p2[i] is Any) by {
        if i < pre.len() {
            assert(p2[i] == pre[i]);
        }
    }
}

pub(crate) proof fn lemma_walk_rel_hits(root: JVal, v: JVal, segs: Seq<SegV>, pre: Seq<SegV>)
    requires
        plain_keys(v),
        renderable(pre),
        concrete(pre),
        walk_segs(root, pre) == Some(v),
    ensures
        forall|h: (Seq<char>, JVal)|
            #[trigger] walk_rel(v, segs, render_address(pre)).contains(h) ==> exists|c: Seq<SegV>|
                hit_witness(root, c, h),
    decreases segs.len(), 1nat, 0nat,
{
    let path = render_address(pre);
    if segs.len() == 0 {
        assert forall|h: (Seq<char>, JVal)| #[trigger] walk_rel(v, segs, path).contains(h) implies exists|c: Seq<SegV>|
            hit_witness(root, c, h) by {
            assert(walk_rel(v, segs, path)[0] == h);
            assert(hit_witness(root, pre, h));
        }
    } else {
        let rest = segs.drop_first();
        match segs[0] {
            SegV::Key(k) => match v {
                JVal::Obj(es) => match lookup(es, k) {
                    Some(next) => {
                        lemma_key_index_from(es, k, 0);
                        let i = key_index(es, k)->0;
                        assert(plain_key(es[i].0) && plain_keys(es[i].1));
                        assert(walk_segs(v, seq![SegV::Key(k)]) == Some(next)) by {
                            let one = seq![SegV::Key(k)];
                            assert(one[0] == SegV::Key(k));
                            assert(one.drop_first() =~= Seq::<SegV>::empty());
                            assert(walk_segs(next, Seq::<SegV>::empty()) == Some(next));
                        }
                        lemma_extend_witness(root, pre, SegV::Key(k), v, next);
                        lemma_walk_rel_hits(root, next, rest, pre.push(SegV::Key(k)));
                        assert(walk_rel(v, segs, path) == walk_rel(next, rest, render_address(pre.push(SegV::Key(k)))));
                    },
                    None => {},
                },
                _ => {},
            },
            SegV::Index(n) => match v {
                JVal::Arr(xs) => if n < xs.len() {
                    let next = xs[n as int];
                    assert(plain_keys(next));
                    assert(walk_segs(v, seq![SegV::Index(n)]) == Some(next)) by {
                        let one = seq![SegV::Index(n)];
                        assert(one[0] == SegV::Index(n));
                        assert(one.drop_first() =~= Seq::<SegV>::empty());
                        assert(walk_segs(next, Seq::<SegV>::empty()) == Some(next));
                    }
                    lemma_extend_witness(root, pre, SegV::Index(n), v, next);
                    lemma_walk_rel_hits(root, next, rest, pre.push(SegV::Index(n)));
                    assert(walk_rel(v, segs, path) == walk_rel(next, rest, render_address(pre.push(SegV::Index(n)))));
                },
                _ => {},
            },
            SegV::Any => match v {
                JVal::Arr(xs) => {
                    lemma_walk_rel_items_hits(root, v, xs, rest, pre, xs.len());
                    assert(walk_rel(v, segs, path) == walk_rel_items(xs, rest, path, xs.len()));
                },
                _ => {},
            },
        }
    }
}

proof fn lemma_walk_rel_items_hits(root: JVal, v: JVal, xs: Seq<JVal>, rest: Seq<SegV>, pre: Seq<SegV>, m: nat)
    requires
        v == JVal::Arr(xs),
        plain_keys(v),
        renderable(pre),
        concrete(pre),
        walk_segs(root, pre) == Some(v),
        m <= xs.len(),
    ensures
        forall|h: (Seq<char>, JVal)|
            #[trigger] walk_rel_items(xs, rest, render_address(pre), m).contains(h) ==> exists|c: Seq<SegV>|
                hit_witness(root, c, h),
    decreases rest.len() + 1, 0nat, m,
{
    let path = render_address(pre);
    if m > 0 {
        lemma_walk_rel_items_hits(root, v, xs, rest, pre, (m - 1) as nat);
        assert(xs.len() <= usize::MAX);
        let idx = (m - 1) as usize;
        assert(idx as nat == m - 1);
        let next = xs[m - 1];
        assert(plain_keys(next));
        assert(walk_segs(v, seq![SegV::Index(idx)]) == Some(next)) by {
            let one = seq![SegV::Index(idx)];
            assert(one[0] == SegV::Index(idx));
            assert(one.drop_first() =~= Seq::<SegV>::empty());
            assert(walk_segs(next, Seq::<SegV>::empty()) == Some(next));
        }
        lemma_extend_witness(root, pre, SegV::Index(idx), v, next);
        lemma_walk_rel_hits(root, next, rest, pre.push(SegV::Index(idx)));
        let a = walk_rel_items(xs, rest, path, (m - 1) as nat);
        let b = walk_rel(next, rest, join_index(path, (m - 1) as nat));
        assert forall|h: (Seq<char>, JVal)| #[trigger] walk_rel_items(xs, rest, path, m).contains(h) implies exists|c: Seq<SegV>|
            hit_witness(root, c, h) by {
            assert(walk_rel_items(xs, rest, path, m) == a + b);
            assert(render_address(pre.push(SegV::Index(idx))) == join_index(path, (m - 1) as nat));
            let q = choose|q: int| 0 <= q < (a + b).len() && (a + b)[q] == h;
            if q < a.len() {
                assert(a[q] == h);
                assert(a.contains(h));
            } else {
                assert(b[q - a.len()] == h);
                assert(b.contains(h));
            }
        }
    }
}

pub(crate) proof fn lemma_render_nonempty(c: Seq<SegV>)
    requires
        renderable(c),
        c.len() > 0,
    ensures
        render_address(c).len() > 0,
{
    let n = c.len() as int;
    lemma_render_step(c, n - 1);
    assert(c.take(n) =~= c);
    match c[n - 1] {
        SegV::Key(k) => assert(plain_key(k)),
        _ => {},
    }
}

pub open spec fn hit_addrs(hits: Seq<(Seq<char>, JVal)>) -> Seq<Seq<char>> {
    hits.map_values(|h: (Seq<char>, JVal)| h.0)
}

/// `c` is a concrete path an address can spell, extending `pre`, and `a`
/// is its address.
pub open spec fn spelled_under(c: Seq<SegV>, pre: Seq<SegV>, a: Seq<char>) -> bool {
    renderable(c) && concrete(c) && pre.len() <= c.len() && c.take(pre.len() as int) == pre
        && render_address(c) == a
}

proof fn lemma_under_push(c: Seq<SegV>, pre: Seq<SegV>, sg: SegV, a: Seq<char>)
    requires
        spelled_under(c, pre.push(sg), a),
    ensures
        spelled_under(c, pre, a),
        c[pre.len() as int] == sg,
{
    assert(c.take(pre.len() as int) =~= c.take(pre.len() as int + 1).take(pre.len() as int));
    assert(pre.push(sg).take(pre.len() as int) =~= pre);
    assert(c.take(pre.len() as int + 1)[pre.len() as int] == c[pre.len() as int]);
}

proof fn lemma_no_dup_concat(x: Seq<Seq<char>>, y: Seq<Seq<char>>)
    requires
        x.no_duplicates(),
        y.no_duplicates(),
        forall|a: Seq<char>| #[trigger] x.contains(a) ==> !y.contains(a),
    ensures
        (x + y).no_duplicates(),
{
    let z = x + y;
    assert forall|i: int, j: int| 0 <= i < z.len() && 0 <= j < z.len() && i != j implies z[i] != z[j] by {
        if i < x.len() && j >= x.len() {
            assert(x.contains(z[i]));
            assert(y[j - x.len()] == z[j]);
        } else if j < x.len() && i >= x.len() {
            assert(x.contains(z[j]));
            assert(y[i - x.len()] == z[i]);
        } else if i < x.len() {
            assert(z[i] == x[i] && z[j] == x[j]);
        } else {
            assert(z[i] == y[i - x.len()] && z[j] == y[j - x.len()]);
        }
    }
}

proof fn lemma_hit_addrs_concat(x: Seq<(Seq<char>, JVal)>, y: Seq<(Seq<char>, JVal)>)
    ensures
        hit_addrs(x + y) == hit_addrs(x) + hit_addrs(y),
{
    assert(hit_addrs(x + y) =~= hit_addrs(x) + hit_addrs(y));
}

proof fn lemma_walk_rel_distinct(v: JVal, segs: Seq<SegV>, pre: Seq<SegV>)
    requires
        plain_keys(v),
        renderable(pre),
        concrete(pre),
    ensures
        forall|a: Seq<char>| #[trigger] hit_addrs(walk_rel(v, segs, render_address(pre))).contains(a) ==> exists|c: Seq<SegV>|
            spelled_under(c, pre, a),
        hit_addrs(walk_rel(v, segs, render_address(pre))).no_duplicates(),
    decreases segs.len(), 1nat, 0nat,
{
    let path = render_address(pre);
    let out = walk_rel(v, segs, path);
    if segs.len() == 0 {
        assert(hit_addrs(out) =~= seq![path]);
        assert(pre.take(pre.len() as int) =~= pre);
        assert(spelled_under(pre, pre, path));
    } else {
        let rest = segs.drop_first();
        match segs[0] {
            SegV::Key(k) => match v {
                JVal::Obj(es) => match lookup(es, k) {
                    Some(next) => {
                        lemma_key_index_from(es, k, 0);
                        let i = key_index(es, k)->0;
                        assert(plain_key(es[i].0) && plain_keys(es[i].1));
                        lemma_push_spellable(pre, SegV::Key(k));
                        lemma_walk_rel_distinct(next, rest, pre.push(SegV::Key(k)));
                        assert(out == walk_rel(next, rest, render_address(pre.push(SegV::Key(k)))));
                        assert forall|a: Seq<char>| #[trigger] hit_addrs(out).contains(a) implies exists|c: Seq<SegV>|
                            spelled_under(c, pre, a) by {
                            let c = choose|c: Seq<SegV>| spelled_under(c, pre.push(SegV::Key(k)), a);
                            lemma_under_push(c, pre, SegV::Key(k), a);
                        }
                    },
                    None => {
                        assert(hit_addrs(out) =~= Seq::<Seq<char>>::empty());
                    },
                },
                _ => {
                    assert(hit_addrs(out) =~= Seq::<Seq<char>>::empty());
                },
            },
            SegV::Index(n) => match v {
                JVal::Arr(xs) => if n < xs.len() {
                    let next = xs[n as int];
                    assert(plain_keys(next));
                    lemma_push_spellable(pre, SegV::Index(n));
                    lemma_walk_rel_distinct(next, rest, pre.push(SegV::Index(n)));
                    assert(out == walk_rel(next, rest, render_address(pre.push(SegV::Index(n)))));
                    assert forall|a: Seq<char>| #[trigger] hit_addrs(out).contains(a) implies exists|c: Seq<SegV>|
                        spelled_under(c, pre, a) by {
                        let c = choose|c: Seq<SegV>| spelled_under(c, pre.push(SegV::Index(n)), a);
                        lemma_under_push(c, pre, SegV::Index(n), a);
                    }
                } else {
                    assert(hit_addrs(out) =~= Seq::<Seq<char>>::empty());
                },
                _ => {
                    assert(hit_addrs(out) =~= Seq::<Seq<char>>::empty());
                },
            },
            SegV::Any => match v {
                JVal::Arr(xs) => {
                    lemma_walk_rel_items_distinct(xs, rest, pre, xs.len());
                    assert(out == walk_rel_items(xs, rest, path, xs.len()));
                    assert forall|a: Seq<char>| #[trigger] hit_addrs(out).contains(a) implies exists|c: Seq<SegV>|
                        spelled_under(c, pre, a) by {
                        let c = choose|c: Seq<SegV>|
                            spelled_under(c, pre, a) && c.len() > pre.len() && #[trigger] c[pre.len() as int] is Index;
                    }
                },
                _ => {
                    assert(hit_addrs(out) =~= Seq::<Seq<char>>::empty());
                },
            },
        }
    }
}

proof fn lemma_walk_rel_items_distinct(xs: Seq<JVal>, rest: Seq<SegV>, pre: Seq<SegV>, m: nat)
    requires
        plain_keys(JVal::Arr(xs)),
        renderable(pre),
        concrete(pre),
        m <= xs.len(),
    ensures
        forall|a: Seq<char>| #[trigger] hit_addrs(walk_rel_items(xs, rest, render_address(pre), m)).contains(a)
            ==> exists|c: Seq<SegV>|
            spelled_under(c, pre, a) && c.len() > pre.len() && #[trigger] c[pre.len() as int] is Index
                && (c[pre.len() as int]->Index_0 as int) < m,
        hit_addrs(walk_rel_items(xs, rest, render_address(pre), m)).no_duplicates(),
    decreases rest.len() + 1, 0nat, m,
{
    let path = render_address(pre);
    if m == 0 {
        assert(hit_addrs(walk_rel_items(xs, rest, path, m)) =~= Seq::<Seq<char>>::empty());
    } else {
        lemma_walk_rel_items_distinct(xs, rest, pre, (m - 1) as nat);
        let idx = (m - 1) as usize;
        assert(idx as nat == m - 1);
        let next = xs[m - 1];
        assert(plain_keys(next));
        let sg = SegV::Index(idx);
        lemma_push_spellable(pre, sg);
        lemma_walk_rel_distinct(next, rest, pre.push(sg));
        let x = walk_rel_items(xs, rest, path, (m - 1) as nat);
        let y = walk_rel(next, rest, render_address(pre.push(sg)));
        assert(walk_rel_items(xs, rest, path, m) == x + y);
        lemma_hit_addrs_concat(x, y);
        assert forall|a: Seq<char>| #[trigger] hit_addrs(x).contains(a) implies !hit_addrs(y).contains(a) by {
            if hit_addrs(y).contains(a) {
                let c1 = choose|c: Seq<SegV>|
                    spelled_under(c, pre, a) && c.len() > pre.len() && #[trigger] c[pre.len() as int] is Index
                        && (c[pre.len() as int]->Index_0 as int) < m - 1;
                let c2 = choose|c: Seq<SegV>| spelled_under(c, pre.push(sg), a);
                lemma_under_push(c2, pre, sg, a);
                lemma_address_round_trip(c1);
                lemma_address_round_trip(c2);
                assert(c1 == c2);
            }
        }
        lemma_no_dup_concat(hit_addrs(x), hit_addrs(y));
        assert forall|a: Seq<char>| #[trigger] hit_addrs(x + y).contains(a) implies exists|c: Seq<SegV>|
            spelled_under(c, pre, a) && c.len() > pre.len() && #[trigger] c[pre.len() as int] is Index
                && (c[pre.len() as int]->Index_0 as int) < m by {
            let hx = hit_addrs(x);
            let hy = hit_addrs(y);
            let q = choose|q: int| 0 <= q < (hx + hy).len() && (hx + hy)[q] == a;
            if q < hx.len() {
                assert(hx[q] == a);
                assert(hx.contains(a));
            } else {
                assert(hy[q - hx.len()] == a);
                assert(hy.contains(a));
                let c2 = choose|c: Seq<SegV>| spelled_under(c, pre.push(sg), a);
                lemma_under_push(c2, pre, sg, a);
            }
        }
    }
}

/// Each pair a path resolves to is a concrete address, with no wildcard
/// left, at which the tree holds that value; no address comes twice; the
/// empty path resolves to the root alone. This holds of trees whose keys
/// an address can spell.
pub proof fn lemma_resolved_hits(root: JVal, path: Seq<char>)
    requires
        plain_keys(root),
    ensures
        resolve_rel_path_spec(root, path) matches Ok(hits) ==> forall|h: (Seq<char>, JVal)|
            #[trigger] hits.contains(h) ==> subtree_at_spec(root, h.0) == Some(h.1) && (
            parse_segments(h.0) matches Ok(c) && concrete(c)),
        resolve_rel_path_spec(root, path) matches Ok(hits) ==> hit_addrs(hits).no_duplicates(),
        path.len() == 0 ==> resolve_rel_path_spec(root, path) == Ok::<Seq<(Seq<char>, JVal)>, ScanError>(
            seq![(Seq::<char>::empty(), root)],
        ),
{
    let e = Seq::<SegV>::empty();
    assert(render_address(e) == Seq::<char>::empty());
    if path.len() == 0 {
        assert(parse_segments(path) == Ok::<Seq<SegV>, ScanError>(e));
    }
    match parse_segments(path) {
        Ok(segs) => {
            lemma_walk_rel_hits(root, root, segs, e);
            lemma_walk_rel_distinct(root, segs, e);
            let hits = walk_rel(root, segs, Seq::empty());
            assert forall|h: (Seq<char>, JVal)| #[trigger] hits.contains(h) implies subtree_at_spec(root, h.0) == Some(h.1) && (
                parse_segments(h.0) matches Ok(c) && concrete(c)) by {
                let c = choose|c: Seq<SegV>| hit_witness(root, c, h);
                lemma_address_round_trip(c);
                if c.len() > 0 {
                    lemma_render_nonempty(c);
                } else {
                    assert(c =~= e);
                }
            }
        },
        Err(_) => {},
    }
}

/// The same, for a tree the program holds: only its keys need be ones an
/// address can spell.
pub proof fn lemma_resolved_hits_of_json(root: Json, path: Seq<char>)
    requires
        keys_plain(root@),
    ensures
        resolve_rel_path_spec(root@, path) matches Ok(hits) ==> forall|h: (Seq<char>, JVal)|
            #[trigger] hits.contains(h) ==> subtree_at_spec(root@, h.0) == Some(h.1) && (
            parse_segments(h.0) matches Ok(c) && concrete(c)),
        resolve_rel_path_spec(root@, path) matches Ok(hits) ==> hit_addrs(hits).no_duplicates(),
        path.len() == 0 ==> resolve_rel_path_spec(root@, path) == Ok::<Seq<(Seq<char>, JVal)>, ScanError>(
            seq![(Seq::<char>::empty(), root@)],
        ),
{
    lemma_json_plain_keys(root);
    lemma_resolved_hits(root@, path);
}

/// Every object key in `v` is one an address can spell.
pub open spec fn keys_plain(v: JVal) -> bool
    decreases v,
{
    match v {
        JVal::Arr(xs) => xs.len() >= 0 && forall|i: int| 0 <= i < xs.len() ==> keys_plain(#[trigger] xs[i]),
        JVal::Obj(es) => es.len() >= 0 && forall|i: int|
            0 <= i < es.len() ==> plain_key((#[trigger] es[i]).0) && keys_plain(es[i].1),
        _ => true,
    }
}

proof fn lemma_keys_plain_entry(es: Seq<(Seq<char>, JVal)>, i: int)
    requires
        keys_plain(JVal::Obj(es)),
        0 <= i < es.len(),
    ensures
        plain_key(es[i].0),
        keys_plain(es[i].1),
{
}

/// A tree the program holds has arrays indexed by `usize`: plain keys are
/// all its laws below ask of it.
pub proof fn lemma_json_plain_keys(j: Json)
    requires
        keys_plain(j@),
    ensures
        plain_keys(j@),
    decreases j,
{
    match j {
        Json::Array(v) => {
            let xs = view_list(v@);
            assert(j@ == JVal::Arr(xs));
            assert(keys_plain(JVal::Arr(xs)));
            assert(xs.len() == v@.len());
            assert(v@.len() == v.len());
            assert forall|i: int| 0 <= i < xs.len() implies plain_keys(#[trigger] xs[i]) by {
                assert(xs[i] == v@[i]@);
                assert(keys_plain(xs[i]));
                lemma_json_plain_keys(v@[i]);
            }
        },
        Json::Object(v) => {
            let es = view_entries(v@);
            assert(j@ == JVal::Obj(es));
            let o = JVal::Obj(es);
            assert(keys_plain(o));
            assert(o matches JVal::Obj(es2) && es2 == es);
            assert(forall|i: int| 0 <= i < es.len() ==> plain_key(#[trigger] es[i].0) && keys_plain(es[i].1));
            assert(es.len() == v@.len());
            assert forall|i: int| 0 <= i < es.len() implies plain_key(#[trigger] es[i].0) && plain_keys(es[i].1) by {
                let e = es[i];
                lemma_keys_plain_entry(es, i);
                assert(e == v@[i]@);
                assert(e.1 == v@[i].value@);
                lemma_json_plain_keys(v@[i].value);
            }
        },
        _ => {},
    }
}

/// `a` is the address of some concrete path an address can spell.
pub open spec fn spellable(a: Seq<char>) -> bool {
    exists|c: Seq<SegV>| renderable(c) && concrete(c) && #[trigger] render_address(c) == a
}

proof fn lemma_push_spellable(pre: Seq<SegV>, sg: SegV)
    requires
        renderable(pre),
        concrete(pre),
        !(sg is Any),
        sg matches SegV::Key(k) ==> plain_key(k),
    ensures
        renderable(pre.push(sg)),
        concrete(pre.push(sg)),
        render_address(pre.push(sg)) == match sg {
            SegV::Key(k) => join_key(render_address(pre), k),
            SegV::Index(n) => join_index(render_address(pre), n as nat),
            SegV::Any => render_address(pre),
        },
{
    let p2 = pre.push(sg);
    assert(p2.drop_last() =~= pre);
    assert forall|i: int| 0 <= i < p2.len() implies match #[trigger] p2[i] {
        SegV::Key(k) => plain_key(k),
        _ => true,
    } by {
        if i < pre.len() {
            assert(p2[i] == pre[i]);
        }
    }
    assert forall|i: int| 0 <= i < p2.len() implies !(#[trigger] p2[i] is Any) by {
        if i < pre.len() {
            assert(p2[i] == pre[i]);
        }
    }
}

pub(crate) proof fn lemma_object_spellable(v: JVal, pre: Seq<SegV>)
    requires
        plain_keys(v),
        renderable(pre),
        concrete(pre),
    ensures
        forall|a: Seq<char>| #[trigger] object_addrs(v, render_address(pre)).contains(a) ==> spellable(a),
    decreases v, 0nat,
{
    let path = render_address(pre);
    assert(pre.take(pre.len() as int) =~= pre);
    assert(spellable(path));
    match v {
        JVal::Obj(es) => {
            lemma_object_spellable_entries(es, pre, es.len());
            let t = object_addrs_entries(es, path, es.len());
            assert forall|a: Seq<char>| #[trigger] object_addrs(v, path).contains(a) implies spellable(a) by {
                let q = choose|q: int| 0 <= q < (seq![path] + t).len() && (seq![path] + t)[q] == a;
                if q > 0 {
                    assert(t[q - 1] == a);
                    assert(t.contains(a));
                } else {
                    assert(a == path);
                }
            }
        },
        JVal::Arr(xs) => {
            lemma_object_spellable_items(xs, pre, xs.len());
            assert(object_addrs(v, path) == object_addrs_items(xs, path, xs.len()));
        },
        _ => {},
    }
}

proof fn lemma_object_spellable_entries(es: Seq<(Seq<char>, JVal)>, pre: Seq<SegV>, n: nat)
    requires
        plain_keys(JVal::Obj(es)),
        renderable(pre),
        concrete(pre),
        n <= es.len(),
    ensures
        forall|a: Seq<char>| #[trigger] object_addrs_entries(es, render_address(pre), n).contains(a) ==> spellable(a),
    decreases es, n,
{
    let path = render_address(pre);
    if n > 0 {
        lemma_object_spellable_entries(es, pre, (n - 1) as nat);
        let k = es[n - 1].0;
        let o = JVal::Obj(es);
        assert(plain_keys(o));
        assert(o matches JVal::Obj(es2) && es2 == es);
        assert(plain_key(es[n - 1].0) && plain_keys(es[n - 1].1));
        lemma_push_spellable(pre, SegV::Key(k));
        lemma_object_spellable(es[n - 1].1, pre.push(SegV::Key(k)));
        let a0 = object_addrs_entries(es, path, (n - 1) as nat);
        let b0 = object_addrs(es[n - 1].1, join_key(path, k));
        assert forall|a: Seq<char>| #[trigger] object_addrs_entries(es, path, n).contains(a) implies spellable(a) by {
            assert(object_addrs_entries(es, path, n) == a0 + b0);
            let q = choose|q: int| 0 <= q < (a0 + b0).len() && (a0 + b0)[q] == a;
            if q < a0.len() {
                assert(a0[q] == a);
                assert(a0.contains(a));
            } else {
                assert(b0[q - a0.len()] == a);
                assert(b0.contains(a));
            }
        }
    }
}

proof fn lemma_object_spellable_items(xs: Seq<JVal>, pre: Seq<SegV>, n: nat)
    requires
        plain_keys(JVal::Arr(xs)),
        renderable(pre),
        concrete(pre),
        n <= xs.len(),
    ensures
        forall|a: Seq<char>| #[trigger] object_addrs_items(xs, render_address(pre), n).contains(a) ==> spellable(a),
    decreases xs, n,
{
    let path = render_address(pre);
    if n > 0 {
        lemma_object_spellable_items(xs, pre, (n - 1) as nat);
        let idx = (n - 1) as usize;
        assert(idx as nat == n - 1);
        assert(plain_keys(xs[n - 1]));
        lemma_push_spellable(pre, SegV::Index(idx));
        lemma_object_spellable(xs[n - 1], pre.push(SegV::Index(idx)));
        let a0 = object_addrs_items(xs, path, (n - 1) as nat);
        let b0 = object_addrs(xs[n - 1], join_index(path, (n - 1) as nat));
        assert forall|a: Seq<char>| #[trigger] object_addrs_items(xs, path, n).contains(a) implies spellable(a) by {
            assert(object_addrs_items(xs, path, n) == a0 + b0);
            let q = choose|q: int| 0 <= q < (a0 + b0).len() && (a0 + b0)[q] == a;
            if q < a0.len() {
                assert(a0[q] == a);
                assert(a0.contains(a));
            } else {
                assert(b0[q - a0.len()] == a);
                assert(b0.contains(a));
            }
        }
    }
}

/// Walking a concrete path keeps keys plain and arrays `usize`-indexed.
pub(crate) proof fn lemma_walk_plain(v: JVal, c: Seq<SegV>)
    requires
        plain_keys(v),
    ensures
        walk_segs(v, c) matches Some(x) ==> plain_keys(x),
    decreases c.len(),
{
    if c.len() > 0 {
        match c[0] {
            SegV::Key(k) => match v {
                JVal::Obj(es) => match lookup(es, k) {
                    Some(next) => {
                        lemma_key_index_from(es, k, 0);
                        let i = key_index(es, k)->0;
                        assert(plain_keys(es[i].1));
                        lemma_walk_plain(next, c.drop_first());
                    },
                    None => {},
                },
                _ => {},
            },
            SegV::Index(n) => match v {
                JVal::Arr(xs) => if n < xs.len() {
                    assert(plain_keys(xs[n as int]));
                    lemma_walk_plain(xs[n as int], c.drop_first());
                },
                _ => {},
            },
            SegV::Any => {},
        }
    }
}

/// Walking `c1` then `c2` is walking their concatenation.
pub(crate) proof fn lemma_walk_concat(v: JVal, c1: Seq<SegV>, c2: Seq<SegV>)
    ensures
        walk_segs(v, c1 + c2) == match walk_segs(v, c1) {
            Some(x) => walk_segs(x, c2),
            None => None,
        },
    decreases c2.len(),
{
    if c2.len() == 0 {
        assert(c1 + c2 =~= c1);
        match walk_segs(v, c1) {
            Some(x) => assert(walk_segs(x, c2) == Some(x)),
            None => {},
        }
    } else {
        let c2p = c2.drop_last();
        lemma_walk_concat(v, c1, c2p);
        assert(c1 + c2 =~= (c1 + c2p).push(c2.last()));
        lemma_walk_segs_push(v, c1 + c2p, c2.last());
        match walk_segs(v, c1) {
            Some(x) => {
                assert(c2 =~= c2p.push(c2.last()));
                lemma_walk_segs_push(x, c2p, c2.last());
            },
            None => {},
        }
    }
}

/// Resolve a path (possibly containing `[]` wildcards) against `root`,
/// returning every `(concrete_address, value)` pair the path yields.
///
/// The returned addresses are concrete — `[]` in the input is replaced with
/// the actual index `[i]` in each result. An empty path returns
/// `[("", root)]`.
pub fn resolve_rel_path(root: &Json, path: &str) -> (res: Result<Vec<(String, Json)>, AddressError>)
    ensures
        match resolve_rel_path_spec(root@, path@) {
            Ok(hits) => res matches Ok(v) && pairs_view(v@) == hits,
            Err(ScanError::Unclosed) => res matches Err(AddressError::UnclosedBracket { address })
                && address@ == path@,
            Err(ScanError::NonNumeric(inner)) => res matches Err(
                AddressError::NonNumericIndex { index, address },
            ) && index@ == inner && address@ == path@,
        },
{
    let segs = parse_address(path)?;
    let mut out: Vec<(String, Json)> = Vec::new();
    let empty: Vec<char> = Vec::new();
    assert(segs_view(segs@).skip(0) =~= segs_view(segs@));
    walk_rel_exec(root, &segs, 0, &empty, &mut out);
    assert(pairs_view(out@) =~= walk_rel(root@, segs_view(segs@), Seq::empty()));
    Ok(out)
}

// ---------------------------------------------------------------------------
// Object ancestors and object enumeration
// ---------------------------------------------------------------------------

/// The object nodes passed through while following `segs` from `v`
/// (whose address is `path`), excluding `v` itself.
pub open spec fn ancestors_from(v: JVal, segs: Seq<SegV>, path: Seq<char>) -> Seq<Seq<char>>
    decreases segs.len(),
{
    if segs.len() == 0 {
        Seq::empty()
    } else {
        match segs[0] {
            SegV::Key(k) => match v {
                JVal::Obj(es) => match lookup(es, k) {
                    Some(next) => {
                        let p = join_key(path, k);
                        (if next is Obj {
                            seq![p]
                        } else {
                            Seq::empty()
                        }) + ancestors_from(next, segs.drop_first(), p)
                    },
                    None => Seq::empty(),
                },
                _ => Seq::empty(),
            },
            SegV::Index(n) => match v {
                JVal::Arr(xs) => if n < xs.len() {
                    let p = join_index(path, n as nat);
                    (if xs[n as int] is Obj {
                        seq![p]
                    } else {
                        Seq::empty()
                    }) + ancestors_from(xs[n as int], segs.drop_first(), p)
                } else {
                    Seq::empty()
                },
                _ => Seq::empty(),
            },
            SegV::Any => Seq::empty(),
        }
    }
}

/// The addresses of the object nodes on the way from the root to `addr`:
/// the root (as the empty address) if it is an object, then each object
/// passed through, the node at `addr` included. Stops at the first missing
/// step or wildcard; a malformed address gives no ancestors.
pub open spec fn object_ancestors_spec(root: JVal, addr: Seq<char>) -> Seq<Seq<char>> {
    match parse_segments(addr) {
        Err(_) => Seq::empty(),
        Ok(segs) => (if root is Obj {
            seq![Seq::<char>::empty()]
        } else {
            Seq::empty()
        }) + ancestors_from(root, segs, Seq::empty()),
    }
}

pub open spec fn strings_view(v: Seq<String>) -> Seq<Seq<char>> {
    v.map_values(|s: String| s@)
}

/// Walk the ancestor chain of `addr` through `root`, yielding each ancestor
/// address that corresponds to an object node. The root is represented as
/// the empty string; the leaf itself is included iff it resolves to an
/// object. A malformed address gives an empty list.
pub fn object_ancestors(root: &Json, addr: &str) -> (res: Vec<String>)
    ensures
        strings_view(res@) == object_ancestors_spec(root@, addr@),
{
    let s = chars_of(addr);
    let segs = match scan_segments(&s) {
        Ok(v) => v,
        Err(_) => {
            let out: Vec<String> = Vec::new();
            assert(strings_view(out@) =~= object_ancestors_spec(root@, addr@));
            return out;
        },
    };
    let ghost sv = segs_view(segs@);
    let mut out: Vec<String> = Vec::new();
    let mut cursor: &Json = root;
    let mut current: Vec<char> = Vec::new();
    if let Json::Object(_) = root {
        out.push(String::new());
    }
    let ghost head = strings_view(out@);
    assert(head =~= (if root@ is Obj {
        seq![Seq::<char>::empty()]
    } else {
        Seq::empty()
    }));
    assert(sv.skip(0) =~= sv);
    let mut d: usize = 0;
    while d < segs.len()
        invariant
            d <= segs.len(),
            sv == segs_view(segs@),
            sv.len() == segs.len(),
            ancestors_from(root@, sv, Seq::empty()) == strings_view(out@).skip(head.len() as int)
                + ancestors_from(cursor@, sv.skip(d as int), current@),
            strings_view(out@).take(head.len() as int) == head,
            head.len() <= strings_view(out@).len(),
        ensures
            ancestors_from(root@, sv, Seq::empty()) =~= strings_view(out@).skip(head.len() as int),
            strings_view(out@).take(head.len() as int) == head,
            head.len() <= strings_view(out@).len(),
        decreases segs.len() - d,
    {
        let ghost before = strings_view(out@);
        assert(sv.skip(d as int).drop_first() =~= sv.skip(d + 1));
        assert(sv.skip(d as int)[0] == segs@[d as int]@);
        match &segs[d] {
            Segment::Key(k) => {
                match cursor {
                    Json::Object(es) => {
                        match find_key(es, k) {
                            Some(i) => {
                                proof {
                                    lemma_key_index_from(view_entries(es@), k@, 0);
                                }
                                assert(view_entries(es@)[i as int] == es@[i as int]@);
                                current = join_key_exec(&current, k);
                                cursor = &es[i].value;
                                if let Json::Object(_) = cursor {
                                    out.push(string_of(&current));
                                }
                            },
                            None => {
                                break;
                            },
                        }
                    },
                    _ => {
                        break;
                    },
                }
            },
            Segment::Index(n) => {
                match cursor {
                    Json::Array(xs) => {
                        if *n < xs.len() {
                            assert(view_list(xs@)[*n as int] == xs@[*n as int]@);
                            current = join_index_exec(&current, *n);
                            cursor = &xs[*n];
                            if let Json::Object(_) = cursor {
                                out.push(string_of(&current));
                            }
                        } else {
                            assert(view_list(xs@).len() == xs@.len());
                            break;
                        }
                    },
                    _ => {
                        break;
                    },
                }
            },
            Segment::Any => {
                break;
            },
        }
        assert(strings_view(out@).take(head.len() as int) =~= head);
        assert(strings_view(out@).skip(head.len() as int) =~= before.skip(head.len() as int) + (
        if cursor@ is Obj {
            seq![current@]
        } else {
            Seq::empty()
        }));
        d = d + 1;
    }
    proof {
        assert(strings_view(out@) =~= strings_view(out@).take(head.len() as int) + strings_view(
            out@,
        ).skip(head.len() as int));
        assert(strings_view(out@) =~= object_ancestors_spec(root@, addr@));
    }
    out
}

/// Addresses of every object node under `v` (whose address is `path`), in
/// document order, `v` first.
pub open spec fn object_addrs(v: JVal, path: Seq<char>) -> Seq<Seq<char>>
    decreases v, 0nat,
{
    match v {
        JVal::Obj(es) => seq![path] + object_addrs_entries(es, path, es.len()),
        JVal::Arr(xs) => object_addrs_items(xs, path, xs.len()),
        _ => Seq::empty(),
    }
}

pub open spec fn object_addrs_entries(es: Seq<(Seq<char>, JVal)>, path: Seq<char>, n: nat) -> Seq<
    Seq<char>,
>
    decreases es, n,
{
    if n == 0 || n > es.len() {
        Seq::empty()
    } else {
        object_addrs_entries(es, path, (n - 1) as nat) + object_addrs(
            es[n - 1].1,
            join_key(path, es[n - 1].0),
        )
    }
}

pub open spec fn object_addrs_items(xs: Seq<JVal>, path: Seq<char>, n: nat) -> Seq<Seq<char>>
    decreases xs, n,
{
    if n == 0 || n > xs.len() {
        Seq::empty()
    } else {
        object_addrs_items(xs, path, (n - 1) as nat) + object_addrs(
            xs[n - 1],
            join_index(path, (n - 1) as nat),
        )
    }
}

#[verifier::loop_isolation(false)]
fn walk_objects(v: &Json, path: &Vec<char>, out: &mut Vec<String>)
    ensures
        strings_view(final(out)@) == strings_view(old(out)@) + object_addrs(v@, path@),
    decreases v,
{
    let ghost start = out@;
    match v {
        Json::Object(es) => {
            out.push(string_of(path));
            let ghost head = strings_view(out@);
            let ghost ev = view_entries(es@);
            let mut i: usize = 0;
            assert(strings_view(out@) =~= head + object_addrs_entries(ev, path@, 0));
            while i < es.len()
                invariant
                    i <= es.len(),
                    ev == view_entries(es@),
                    ev.len() == es.len(),
                    strings_view(out@) == head + object_addrs_entries(ev, path@, i as nat),
                decreases es.len() - i,
            {
                assert(ev[i as int] == es@[i as int]@);
                let sub = join_key_exec(path, &es[i].key);
                walk_objects(&es[i].value, &sub, out);
                assert(strings_view(out@) =~= head + object_addrs_entries(ev, path@, (i + 1) as nat));
                i = i + 1;
            }
            assert(strings_view(out@) =~= strings_view(start) + object_addrs(v@, path@));
        },
        Json::Array(xs) => {
            let ghost xv = view_list(xs@);
            let mut i: usize = 0;
            assert(strings_view(out@) =~= strings_view(start) + object_addrs_items(xv, path@, 0));
            while i < xs.len()
                invariant
                    i <= xs.len(),
                    xv == view_list(xs@),
                    xv.len() == xs.len(),
                    strings_view(out@) == strings_view(start) + object_addrs_items(xv, path@, i as nat),
                decreases xs.len() - i,
            {
                assert(xv[i as int] == xs@[i as int]@);
                let sub = join_index_exec(path, i);
                walk_objects(&xs[i], &sub, out);
                assert(strings_view(out@) =~= strings_view(start) + object_addrs_items(
                    xv,
                    path@,
                    (i + 1) as nat,
                ));
                i = i + 1;
            }
        },
        _ => {
            assert(strings_view(out@) =~= strings_view(start) + object_addrs(v@, path@));
        },
    }
}

/// Enumerate every address in `value` that resolves to an object node,
/// including the root (as the empty string).
pub fn find_addresses_all_objects(value: &Json) -> (res: Vec<String>)
    ensures
        strings_view(res@) == object_addrs(value@, Seq::empty()),
{
    let mut out: Vec<String> = Vec::new();
    let empty: Vec<char> = Vec::new();
    walk_objects(value, &empty, &mut out);
    assert(strings_view(out@) =~= object_addrs(value@, Seq::empty()));
    out
}

/// Addresses of every object or array node under `v` (whose address is
/// `path`), in document order, `v` first.
pub open spec fn container_addrs(v: JVal, path: Seq<char>) -> Seq<Seq<char>>
    decreases v, 0nat,
{
    match v {
        JVal::Obj(es) => seq![path] + container_addrs_entries(es, path, es.len()),
        JVal::Arr(xs) => seq![path] + container_addrs_items(xs, path, xs.len()),
        _ => Seq::empty(),
    }
}

pub open spec fn container_addrs_entries(es: Seq<(Seq<char>, JVal)>, path: Seq<char>, n: nat) -> Seq<
    Seq<char>,
>
    decreases es, n,
{
    if n == 0 || n > es.len() {
        Seq::empty()
    } else {
        container_addrs_entries(es, path, (n - 1) as nat) + container_addrs(
            es[n - 1].1,
            join_key(path, es[n - 1].0),
        )
    }
}

pub open spec fn container_addrs_items(xs: Seq<JVal>, path: Seq<char>, n: nat) -> Seq<Seq<char>>
    decreases xs, n,
{
    if n == 0 || n > xs.len() {
        Seq::empty()
    } else {
        container_addrs_items(xs, path, (n - 1) as nat) + container_addrs(
            xs[n - 1],
            join_index(path, (n - 1) as nat),
        )
    }
}

#[verifier::loop_isolation(false)]
fn walk_containers(v: &Json, path: &Vec<char>, out: &mut Vec<String>)
    ensures
        strings_view(final(out)@) == strings_view(old(out)@) + container_addrs(v@, path@),
    decreases v,
{
    let ghost start = out@;
    match v {
        Json::Object(es) => {
            out.push(string_of(path));
            let ghost head = strings_view(out@);
            let ghost ev = view_entries(es@);
            let mut i: usize = 0;
            assert(strings_view(out@) =~= head + container_addrs_entries(ev, path@, 0));
            while i < es.len()
                invariant
                    i <= es.len(),
                    ev == view_entries(es@),
                    ev.len() == es.len(),
                    strings_view(out@) == head + container_addrs_entries(ev, path@, i as nat),
                decreases es.len() - i,
            {
                assert(ev[i as int] == es@[i as int]@);
                let sub = join_key_exec(path, &es[i].key);
                walk_containers(&es[i].value, &sub, out);
                assert(strings_view(out@) =~= head + container_addrs_entries(ev, path@, (i + 1) as nat));
                i = i + 1;
            }
            assert(strings_view(out@) =~= strings_view(start) + container_addrs(v@, path@));
        },
        Json::Array(xs) => {
            out.push(string_of(path));
            let ghost head = strings_view(out@);
            let ghost xv = view_list(xs@);
            let mut i: usize = 0;
            assert(strings_view(out@) =~= head + container_addrs_items(xv, path@, 0));
            while i < xs.len()
                invariant
                    i <= xs.len(),
                    xv == view_list(xs@),
                    xv.len() == xs.len(),
                    strings_view(out@) == head + container_addrs_items(xv, path@, i as nat),
                decreases xs.len() - i,
            {
                assert(xv[i as int] == xs@[i as int]@);
                let sub = join_index_exec(path, i);
                walk_containers(&xs[i], &sub, out);
                assert(strings_view(out@) =~= head + container_addrs_items(xv, path@, (i + 1) as nat));
                i = i + 1;
            }
            assert(strings_view(out@) =~= strings_view(start) + container_addrs(v@, path@));
        },
        _ => {
            assert(strings_view(out@) =~= strings_view(start) + container_addrs(v@, path@));
        },
    }
}

/// Enumerate every address in `value` that resolves to an object or an
/// array node, including the root (as the empty string).
pub fn find_container_addresses(value: &Json) -> (res: Vec<String>)
    ensures
        strings_view(res@) == container_addrs(value@, Seq::empty()),
{
    let mut out: Vec<String> = Vec::new();
    let empty: Vec<char> = Vec::new();
    walk_containers(value, &empty, &mut out);
    assert(strings_view(out@) =~= container_addrs(value@, Seq::empty()));
    out
}

// ---------------------------------------------------------------------------
// Needle search
// ---------------------------------------------------------------------------

/// Model of a `Match`.
pub enum MatchV {
    Leaf(JVal),
    Key(Seq<char>),
}

/// What was matched at a given address, so callers can format snippets.
#[derive(Debug, Clone, PartialEq, Eq)]
pub enum Match {
    /// The match was a substring of a scalar leaf's value.
    Leaf(Json),
    /// The match was an object key; the string is the key itself.
    Key(String),
}

impl View for Match {
    type V = MatchV;

    open spec fn view(&self) -> MatchV {
        match self {
            Match::Leaf(j) => MatchV::Leaf(j@),
            Match::Key(k) => MatchV::Key(k@),
        }
    }
}

/// The address shown for a scalar hit: `$` for the root.
pub open spec fn path_or_root(p: Seq<char>) -> Seq<char> {
    if p.len() == 0 {
        seq!['$']
    } else {
        p
    }
}

/// Every place under `v` (at address `path`) where `needle` appears: as a
/// substring of a string, number or boolean leaf, or of an object key. An
/// array or object whose compact text lacks the needle is not entered.
pub open spec fn match_sites(v: JVal, path: Seq<char>, needle: Seq<char>) -> Seq<
    (Seq<char>, MatchV),
>
    decreases v, 0nat,
{
    match v {
        JVal::Null => Seq::empty(),
        JVal::Str(s) => if contains_sub(s, needle) {
            seq![(path_or_root(path), MatchV::Leaf(v))]
        } else {
            Seq::empty()
        },
        JVal::Num(t, _) => if contains_sub(t, needle) {
            seq![(path_or_root(path), MatchV::Leaf(v))]
        } else {
            Seq::empty()
        },
        JVal::Bool(b) => if contains_sub(crate::json::bool_text(b), needle) {
            seq![(path_or_root(path), MatchV::Leaf(v))]
        } else {
            Seq::empty()
        },
        JVal::Arr(xs) => if !contains_sub(json_text(v), needle) {
            Seq::empty()
        } else {
            match_sites_items(xs, path, needle, xs.len())
        },
        JVal::Obj(es) => if !contains_sub(json_text(v), needle) {
            Seq::empty()
        } else {
            match_sites_entries(es, path, needle, es.len())
        },
    }
}

pub open spec fn match_sites_items(xs: Seq<JVal>, path: Seq<char>, needle: Seq<char>, n: nat) -> Seq<
    (Seq<char>, MatchV),
>
    decreases xs, n,
{
    if n == 0 || n > xs.len() {
        Seq::empty()
    } else {
        match_sites_items(xs, path, needle, (n - 1) as nat) + match_sites(
            xs[n - 1],
            join_index(path, (n - 1) as nat),
            needle,
        )
    }
}

pub open spec fn match_sites_entries(
    es: Seq<(Seq<char>, JVal)>,
    path: Seq<char>,
    needle: Seq<char>,
    n: nat,
) -> Seq<(Seq<char>, MatchV)>
    decreases es, n,
{
    if n == 0 || n > es.len() {
        Seq::empty()
    } else {
        let sub = join_key(path, es[n - 1].0);
        match_sites_entries(es, path, needle, (n - 1) as nat) + (if contains_sub(
            es[n - 1].0,
            needle,
        ) {
            seq![(sub, MatchV::Key(es[n - 1].0))]
        } else {
            Seq::empty()
        }) + match_sites(es[n - 1].1, sub, needle)
    }
}

pub open spec fn sites_view(v: Seq<(String, Match)>) -> Seq<(Seq<char>, MatchV)> {
    v.map_values(|p: (String, Match)| (p.0@, p.1@))
}

fn push_root_or_path(path: &Vec<char>) -> (res: String)
    ensures
        res@ == path_or_root(path@),
{
    if path.len() == 0 {
        let mut v: Vec<char> = Vec::new();
        v.push('$');
        assert(v@ =~= seq!['$']);
        string_of(&v)
    } else {
        string_of(path)
    }
}

#[verifier::loop_isolation(false)]
fn walk_with_emit(v: &Json, path: &Vec<char>, needle: &Vec<char>, out: &mut Vec<(String, Match)>)
    ensures
        sites_view(final(out)@) == sites_view(old(out)@) + match_sites(v@, path@, needle@),
    decreases v,
{
    let ghost start = out@;
    match v {
        Json::Null => {
            assert(sites_view(out@) =~= sites_view(start) + match_sites(v@, path@, needle@));
        },
        Json::Str(s) => {
            if has_sub(&chars_of(s.as_str()), needle) {
                out.push((push_root_or_path(path), Match::Leaf(json_clone(v))));
            }
            assert(sites_view(out@) =~= sites_view(start) + match_sites(v@, path@, needle@));
        },
        Json::Number(n) => {
            if has_sub(&chars_of(n.text.as_str()), needle) {
                out.push((push_root_or_path(path), Match::Leaf(json_clone(v))));
            }
            assert(sites_view(out@) =~= sites_view(start) + match_sites(v@, path@, needle@));
        },
        Json::Bool(b) => {
            let t = crate::json::render_compact(v);
            if has_sub(&t, needle) {
                out.push((push_root_or_path(path), Match::Leaf(json_clone(v))));
            }
            assert(sites_view(out@) =~= sites_view(start) + match_sites(v@, path@, needle@));
        },
        Json::Array(xs) => {
            let whole = crate::json::render_compact(v);
            if !has_sub(&whole, needle) {
                assert(sites_view(out@) =~= sites_view(start) + match_sites(v@, path@, needle@));
                return ;
            }
            let ghost xv = view_list(xs@);
            let mut i: usize = 0;
            assert(sites_view(out@) =~= sites_view(start) + match_sites_items(xv, path@, needle@, 0));
            while i < xs.len()
                invariant
                    i <= xs.len(),
                    xv == view_list(xs@),
                    xv.len() == xs.len(),
                    sites_view(out@) == sites_view(start) + match_sites_items(
                        xv,
                        path@,
                        needle@,
                        i as nat,
                    ),
                decreases xs.len() - i,
            {
                assert(xv[i as int] == xs@[i as int]@);
                let sub = join_index_exec(path, i);
                walk_with_emit(&xs[i], &sub, needle, out);
                assert(sites_view(out@) =~= sites_view(start) + match_sites_items(
                    xv,
                    path@,
                    needle@,
                    (i + 1) as nat,
                ));
                i = i + 1;
            }
        },
        Json::Object(es) => {
            let whole = crate::json::render_compact(v);
            if !has_sub(&whole, needle) {
                assert(sites_view(out@) =~= sites_view(start) + match_sites(v@, path@, needle@));
                return ;
            }
            let ghost ev = view_entries(es@);
            let mut i: usize = 0;
            assert(sites_view(out@) =~= sites_view(start) + match_sites_entries(ev, path@, needle@, 0));
            while i < es.len()
                invariant
                    i <= es.len(),
                    ev == view_entries(es@),
                    ev.len() == es.len(),
                    sites_view(out@) == sites_view(start) + match_sites_entries(
                        ev,
                        path@,
                        needle@,
                        i as nat,
                    ),
                decreases es.len() - i,
            {
                assert(ev[i as int] == es@[i as int]@);
                let ghost before = sites_view(out@);
                let sub = join_key_exec(path, &es[i].key);
                if has_sub(&chars_of(es[i].key.as_str()), needle) {
                    out.push((string_of(&sub), Match::Key(es[i].key.clone())));
                }
                let ghost mid = sites_view(out@);
                let ghost keypart = if contains_sub(ev[i as int].0, needle@) {
                    seq![(sub@, MatchV::Key(ev[i as int].0))]
                } else {
                    Seq::<(Seq<char>, MatchV)>::empty()
                };
                assert(mid =~= before + keypart);
                walk_with_emit(&es[i].value, &sub, needle, out);
                assert(sites_view(out@) =~= before + keypart + match_sites(ev[i as int].1, sub@, needle@));
                assert(sites_view(out@) =~= sites_view(start) + match_sites_entries(
                    ev,
                    path@,
                    needle@,
                    (i + 1) as nat,
                ));
                i = i + 1;
            }
        },
    }
}

/// Every address in `value` where `needle` appears — as a substring of a
/// string/number/bool leaf, or as an object key — with what matched there.
pub fn walk_matches(value: &Json, needle: &str) -> (res: Vec<(String, Match)>)
    ensures
        sites_view(res@) == match_sites(value@, Seq::empty(), needle@),
{
    let mut out: Vec<(String, Match)> = Vec::new();
    let empty: Vec<char> = Vec::new();
    let n = chars_of(needle);
    walk_with_emit(value, &empty, &n, &mut out);
    assert(sites_view(out@) =~= match_sites(value@, Seq::empty(), needle@));
    out
}

/// Find every address in `value` where `needle` appears.
pub fn find_addresses(value: &Json, needle: &str) -> (res: Vec<String>)
    ensures
        res@.len() == match_sites(value@, Seq::empty(), needle@).len(),
        forall|i: int|
            0 <= i < res@.len() ==> (#[trigger] res@[i])@ == match_sites(
                value@,
                Seq::empty(),
                needle@,
            )[i].0,
{
    let sites = walk_matches(value, needle);
    let mut out: Vec<String> = Vec::new();
    let mut i: usize = 0;
    while i < sites.len()
        invariant
            i <= sites.len(),
            out@.len() == i,
            sites_view(sites@) == match_sites(value@, Seq::empty(), needle@),
            forall|k: int| 0 <= k < i ==> (#[trigger] out@[k])@ == sites@[k].0@,
        decreases sites.len() - i,
    {
        out.push(sites[i].0.clone());
        i = i + 1;
    }
    proof {
        assert forall|k: int| 0 <= k < out@.len() implies (#[trigger] out@[k])@ == match_sites(
            value@,
            Seq::empty(),
            needle@,
        )[k].0 by {
            assert(sites_view(sites@)[k] == (sites@[k].0@, sites@[k].1@));
        }
    }
    out
}

} // verus!
