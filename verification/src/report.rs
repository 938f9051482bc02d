//! Build reports: per-hole summaries, hole addresses and the textual
//! rendering of a template.

use vstd::prelude::*;

use crate::address::{join_index, join_index_exec, join_key, join_key_exec};
use crate::antiunify::{
    Field, Observations, Template, TmplV, all_equal, group_template_view, lemma_fields_view,
    lemma_named_fields_view, lemma_tmpls_view, named_fields_view, fields_view, tmpls_view,
    tmpl_view,
};
use crate::json::{JVal, Json, group_json_view, json_clone, json_eq, json_text, render_compact, view_list};
use crate::matcher::lower_char;
use crate::order::{nat_seq, stable_by_count_desc, stable_order_by_count_desc};
use crate::text::{
    append, append_str, chars_eq, chars_lt, chars_of, compare_chars, compare_chars_exec, decimal,
    decimal_exec, lemma_compare_chars_props, lemma_compare_chars_trans, string_of, trim_start,
    trim_start_exec,
};

verus! {

broadcast use group_json_view;

/// The kind of value a hole takes.
#[derive(Debug, Clone, Copy, PartialEq, Eq, Structural)]
pub enum HoleKind {
    Bool,
    Integer,
    Number,
    String,
    Array,
    Object,
    Mixed,
    OptionalKey,
}

/// Where a hole's values seem to come from.
#[derive(Debug, Clone, Copy, PartialEq, Eq, Structural)]
pub enum SourceHint {
    Free,
    DerivedFromRepoName,
    ConstantWhenPresent,
}

/// One hole of a group's template, summarised.
#[derive(Debug)]
pub struct HoleReport {
    pub address: String,
    pub present_in: usize,
    pub total: usize,
    /// Each distinct value with how often it occurs, most frequent first.
    pub distinct_values: Vec<(Json, usize)>,
    pub kind: HoleKind,
    pub source_hint: SourceHint,
}

// ---------------------------------------------------------------------------
// Kinds and sources
// ---------------------------------------------------------------------------

/// The kind of one value: null, bool, integer, other number, string, array
/// or object.
pub open spec fn kind_tag(v: JVal) -> nat {
    match v {
        JVal::Null => 0,
        JVal::Bool(_) => 1,
        JVal::Num(_, true) => 2,
        JVal::Num(_, false) => 3,
        JVal::Str(_) => 4,
        JVal::Arr(_) => 5,
        JVal::Obj(_) => 6,
    }
}

/// A hole is an optional key when some instance lacks it; mixed when its
/// values are of more than one kind; otherwise of the kind they share
/// (null and no values at all count as string).
pub open spec fn classify_spec(values: Seq<JVal>, present_in: nat, total: nat) -> HoleKind {
    if present_in < total {
        HoleKind::OptionalKey
    } else if exists|i: int, j: int|
        0 <= i < values.len() && 0 <= j < values.len() && kind_tag(#[trigger] values[i])
            != kind_tag(#[trigger] values[j]) {
        HoleKind::Mixed
    } else if values.len() == 0 {
        HoleKind::String
    } else {
        let t = kind_tag(values[0]);
        if t == 1 {
            HoleKind::Bool
        } else if t == 2 {
            HoleKind::Integer
        } else if t == 3 {
            HoleKind::Number
        } else if t == 5 {
            HoleKind::Array
        } else if t == 6 {
            HoleKind::Object
        } else {
            HoleKind::String
        }
    }
}

fn kind_tag_exec(v: &Json) -> (res: u8)
    ensures
        res as nat == kind_tag(v@),
{
    match v {
        Json::Null => 0,
        Json::Bool(_) => 1,
        Json::Number(n) => if n.is_integer {
            2
        } else {
            3
        },
        Json::Str(_) => 4,
        Json::Array(_) => 5,
        Json::Object(_) => 6,
    }
}

pub fn classify_hole(values: &Vec<Json>, present_in: usize, total: usize) -> (res: HoleKind)
    ensures
        res == classify_spec(view_list(values@), present_in as nat, total as nat),
{
    let ghost vv = view_list(values@);
    if present_in < total {
        return HoleKind::OptionalKey;
    }
    if values.len() == 0 {
        return HoleKind::String;
    }
    let t0 = kind_tag_exec(&values[0]);
    assert(vv[0] == values@[0]@);
    let mut i: usize = 1;
    while i < values.len()
        invariant
            1 <= i <= values@.len(),
            vv == view_list(values@),
            t0 as nat == kind_tag(vv[0]),
            present_in >= total,
            forall|k: int| 0 <= k < i ==> kind_tag(#[trigger] vv[k]) == t0,
        decreases values@.len() - i,
    {
        assert(vv[i as int] == values@[i as int]@);
        if kind_tag_exec(&values[i]) != t0 {
            assert(kind_tag(vv[i as int]) != kind_tag(vv[0]));
            assert(exists|a: int, b: int|
                0 <= a < vv.len() && 0 <= b < vv.len() && kind_tag(#[trigger] vv[a]) != kind_tag(
                    #[trigger] vv[b],
                )) by {
                assert(0 <= i < vv.len());
            }
            return HoleKind::Mixed;
        }
        i = i + 1;
    }
    if t0 == 1 {
        HoleKind::Bool
    } else if t0 == 2 {
        HoleKind::Integer
    } else if t0 == 3 {
        HoleKind::Number
    } else if t0 == 5 {
        HoleKind::Array
    } else if t0 == 6 {
        HoleKind::Object
    } else {
        HoleKind::String
    }
}

/// PEP 503 normalisation as applied here: ASCII lowercase, `_` as `-`.
pub open spec fn pep503_char(c: char) -> char {
    if lower_char(c) == '_' {
        '-'
    } else {
        lower_char(c)
    }
}

pub open spec fn pep503_norm(s: Seq<char>) -> Seq<char> {
    s.map_values(|c: char| pep503_char(c))
}

/// Two names are equal once ASCII-lowercased with `_` read as `-`.
pub fn pep503_eq(a: &str, b: &str) -> (res: bool)
    ensures
        res == (pep503_norm(a@) == pep503_norm(b@)),
{
    let x = chars_of(a);
    let y = chars_of(b);
    if x.len() != y.len() {
        assert(pep503_norm(a@).len() != pep503_norm(b@).len());
        return false;
    }
    let mut i: usize = 0;
    while i < x.len()
        invariant
            i <= x@.len(),
            x@ == a@,
            y@ == b@,
            x@.len() == y@.len(),
            forall|k: int| 0 <= k < i ==> pep503_char(#[trigger] x@[k]) == pep503_char(y@[k]),
        decreases x@.len() - i,
    {
        let cx = crate::matcher::lower_char_exec(x[i]);
        let cy = crate::matcher::lower_char_exec(y[i]);
        let nx = if cx == '_' {
            '-'
        } else {
            cx
        };
        let ny = if cy == '_' {
            '-'
        } else {
            cy
        };
        if nx != ny {
            assert(pep503_norm(a@)[i as int] != pep503_norm(b@)[i as int]);
            return false;
        }
        i = i + 1;
    }
    assert(pep503_norm(a@) =~= pep503_norm(b@));
    true
}

/// Value `k` is the string `s` and names repo `r` (exactly or by PEP 503).
pub open spec fn names_repo(v: JVal, r: Seq<char>) -> bool {
    match v {
        JVal::Str(s) => s == r || pep503_norm(s) == pep503_norm(r),
        _ => false,
    }
}

/// Values look derived from the repo name when there are at least two,
/// each names its instance's repo, and at least two repos are involved;
/// they are constant when there are at least two and all are equal.
pub open spec fn source_spec(idx: Seq<nat>, values: Seq<JVal>, repos: Seq<Seq<char>>) -> SourceHint {
    let n = if values.len() < idx.len() {
        values.len()
    } else {
        idx.len()
    };
    if values.len() >= 2 && (forall|k: int| 0 <= k < n ==> names_repo(#[trigger] values[k], repos[idx[k] as int]))
        && (exists|a: int, b: int|
        0 <= a < idx.len() && 0 <= b < idx.len() && repos[#[trigger] idx[a] as int] != repos[#[trigger] idx[b] as int]) {
        SourceHint::DerivedFromRepoName
    } else if values.len() >= 2 && all_equal(values) {
        SourceHint::ConstantWhenPresent
    } else {
        SourceHint::Free
    }
}

pub open spec fn strs(v: Seq<String>) -> Seq<Seq<char>> {
    v.map_values(|s: String| s@)
}

pub fn detect_source(obs: &Observations, repo_names: &Vec<String>) -> (res: SourceHint)
    requires
        forall|k: int|
            0 <= k < obs.instance_indices@.len() ==> #[trigger] obs.instance_indices@[k]
                < repo_names@.len(),
    ensures
        res == source_spec(obs@.0, obs@.1, strs(repo_names@)),
{
    let ghost idx = obs@.0;
    let ghost vv = obs@.1;
    let ghost rs = strs(repo_names@);
    if obs.values.len() >= 2 {
        let n = if obs.values.len() < obs.instance_indices.len() {
            obs.values.len()
        } else {
            obs.instance_indices.len()
        };
        let mut all_match = true;
        let mut k: usize = 0;
        while k < n
            invariant
                k <= n,
                n <= obs.values@.len(),
                n <= obs.instance_indices@.len(),
                idx == obs@.0,
                vv == obs@.1,
                rs == strs(repo_names@),
                forall|m: int|
                    0 <= m < obs.instance_indices@.len() ==> #[trigger] obs.instance_indices@[m]
                        < repo_names@.len(),
                all_match <==> forall|m: int| 0 <= m < k ==> names_repo(#[trigger] vv[m], rs[idx[m] as int]),
            decreases n - k,
        {
            let repo = &repo_names[obs.instance_indices[k]];
            assert(vv[k as int] == obs.values@[k as int]@);
            assert(rs[idx[k as int] as int] == repo@);
            let ok = match &obs.values[k] {
                Json::Str(s) => {
                    *s == *repo || pep503_eq(s.as_str(), repo.as_str())
                },
                _ => false,
            };
            if !ok {
                all_match = false;
            }
            k = k + 1;
        }
        let mut distinct = false;
        let mut a: usize = 1;
        while a < obs.instance_indices.len()
            invariant
                1 <= a || obs.instance_indices@.len() == 0,
                a <= obs.instance_indices@.len() || obs.instance_indices@.len() == 0,
                idx == obs@.0,
                rs == strs(repo_names@),
                forall|m: int|
                    0 <= m < obs.instance_indices@.len() ==> #[trigger] obs.instance_indices@[m]
                        < repo_names@.len(),
                distinct <==> exists|m: int| 0 <= m < a && #[trigger] repos_differ(idx, rs, m, 0),
            decreases obs.instance_indices@.len() - a,
        {
            assert(rs[idx[a as int] as int] == repo_names@[obs.instance_indices@[a as int] as int]@);
            assert(rs[idx[0] as int] == repo_names@[obs.instance_indices@[0] as int]@);
            if repo_names[obs.instance_indices[a]] != repo_names[obs.instance_indices[0]] {
                distinct = true;
                assert(repos_differ(idx, rs, a as int, 0));
            }
            a = a + 1;
        }
        proof {
            if distinct {
                let m = choose|m: int| 0 <= m < a && #[trigger] repos_differ(idx, rs, m, 0);
                assert(rs[idx[m] as int] != rs[idx[0] as int]);
            }
            if exists|x: int, y: int|
                0 <= x < idx.len() && 0 <= y < idx.len() && rs[#[trigger] idx[x] as int] != rs[#[trigger] idx[y] as int] {
                let (x, y) = choose|x: int, y: int|
                    0 <= x < idx.len() && 0 <= y < idx.len() && rs[#[trigger] idx[x] as int] != rs[#[trigger] idx[y] as int];
                if rs[idx[x] as int] != rs[idx[0] as int] {
                    assert(repos_differ(idx, rs, x, 0));
                } else {
                    assert(repos_differ(idx, rs, y, 0));
                }
            }
        }
        if all_match && distinct {
            return SourceHint::DerivedFromRepoName;
        }
        let mut same = true;
        let mut i: usize = 1;
        while i < obs.values.len()
            invariant
                1 <= i <= obs.values@.len(),
                vv == obs@.1,
                same <==> forall|m: int| 0 <= m < i ==> #[trigger] vv[m] == vv[0],
            decreases obs.values@.len() - i,
        {
            assert(vv[i as int] == obs.values@[i as int]@);
            assert(vv[0] == obs.values@[0]@);
            if !json_eq(&obs.values[0], &obs.values[i]) {
                same = false;
            }
            i = i + 1;
        }
        if same {
            return SourceHint::ConstantWhenPresent;
        }
    }
    SourceHint::Free
}

pub open spec fn repos_differ(idx: Seq<nat>, rs: Seq<Seq<char>>, a: int, b: int) -> bool {
    0 <= a < idx.len() && 0 <= b < idx.len() && rs[idx[a] as int] != rs[idx[b] as int]
}


// ---------------------------------------------------------------------------
// Value tallies
// ---------------------------------------------------------------------------

/// How many of `values` render to the text `t`.
pub open spec fn count_text(values: Seq<JVal>, t: Seq<char>) -> nat
    decreases values.len(),
{
    if values.len() == 0 {
        0
    } else {
        count_text(values.drop_last(), t) + if json_text(values.last()) == t {
            1nat
        } else {
            0nat
        }
    }
}

/// The first of `values` that renders to `t`.
pub open spec fn first_with_text(values: Seq<JVal>, t: Seq<char>) -> Option<JVal>
    decreases values.len(),
{
    if values.len() == 0 {
        None
    } else {
        match first_with_text(values.drop_last(), t) {
            Some(v) => Some(v),
            None => if json_text(values.last()) == t {
                Some(values.last())
            } else {
                None
            },
        }
    }
}

/// Tally order: more frequent first, then by rendered text.
pub open spec fn tally_before(a: (JVal, nat), b: (JVal, nat)) -> bool {
    a.1 > b.1 || (a.1 == b.1 && chars_lt(json_text(a.0), json_text(b.0)))
}

/// `res` holds each distinct value of `values` (distinct by rendered
/// text; the first occurrence stands for all) with its number of
/// occurrences, in tally order.
pub open spec fn is_tally(res: Seq<(JVal, nat)>, values: Seq<JVal>) -> bool {
    &&& forall|i: int, j: int| 0 <= i < j < res.len() ==> tally_before(#[trigger] res[i], #[trigger] res[j])
    &&& forall|i: int|
        0 <= i < res.len() ==> first_with_text(values, json_text((#[trigger] res[i]).0)) == Some(
            res[i].0,
        ) && res[i].1 == count_text(values, json_text(res[i].0))
    &&& forall|k: int|
        0 <= k < values.len() ==> exists|i: int|
            0 <= i < res.len() && json_text((#[trigger] res[i]).0) == json_text(#[trigger] values[k])
}

pub open spec fn tally_view(v: Seq<(Json, usize)>) -> Seq<(JVal, nat)> {
    v.map_values(|p: (Json, usize)| (p.0@, p.1 as nat))
}

proof fn lemma_count_text_bound(values: Seq<JVal>, t: Seq<char>)
    ensures
        count_text(values, t) <= values.len(),
    decreases values.len(),
{
    if values.len() > 0 {
        lemma_count_text_bound(values.drop_last(), t);
    }
}

/// The running tally of a prefix of the values: entries sorted by text,
/// each with the first value of that text and how often the text occurs;
/// texts that are not listed do not occur.
pub open spec fn tally_ok(ts: Seq<Seq<char>>, fs: Seq<JVal>, cs: Seq<nat>, pre: Seq<JVal>) -> bool {
    &&& ts.len() == fs.len()
    &&& ts.len() == cs.len()
    &&& forall|a: int, b: int| 0 <= a < b < ts.len() ==> chars_lt(#[trigger] ts[a], #[trigger] ts[b])
    &&& forall|a: int|
        0 <= a < ts.len() ==> #[trigger] ts[a] == json_text(fs[a]) && first_with_text(pre, ts[a])
            == Some(fs[a]) && cs[a] == count_text(pre, ts[a])
    &&& forall|t: Seq<char>| !ts.contains(t) ==> #[trigger] count_text(pre, t) == 0 && first_with_text(pre, t) is None
}

proof fn lemma_push_step(pre: Seq<JVal>, x: JVal, t: Seq<char>)
    ensures
        count_text(pre.push(x), t) == count_text(pre, t) + if json_text(x) == t {
            1nat
        } else {
            0nat
        },
        first_with_text(pre.push(x), t) == match first_with_text(pre, t) {
            Some(v) => Some(v),
            None => if json_text(x) == t {
                Some(x)
            } else {
                None
            },
        },
{
    assert(pre.push(x).drop_last() =~= pre);
    assert(pre.push(x).last() == x);
}

proof fn lemma_tally_bump(ts: Seq<Seq<char>>, fs: Seq<JVal>, cs: Seq<nat>, pre: Seq<JVal>, x: JVal, p: int)
    requires
        tally_ok(ts, fs, cs, pre),
        0 <= p < ts.len(),
        ts[p] == json_text(x),
    ensures
        tally_ok(ts, fs, cs.update(p, cs[p] + 1), pre.push(x)),
{
    let q = pre.push(x);
    assert(q.drop_last() =~= pre);
    assert forall|a: int|
        0 <= a < ts.len() implies #[trigger] ts[a] == json_text(fs[a]) && first_with_text(q, ts[a])
            == Some(fs[a]) && cs.update(p, cs[p] + 1)[a] == count_text(q, ts[a]) by {
        lemma_push_step(pre, x, ts[a]);
        if a != p {
            lemma_compare_chars_props(ts[a], ts[p]);
            if a < p {
                assert(chars_lt(ts[a], ts[p]));
            } else {
                assert(chars_lt(ts[p], ts[a]));
            }
        }
    }
    assert forall|t: Seq<char>| !ts.contains(t) implies #[trigger] count_text(q, t) == 0 && first_with_text(q, t) is None by {
        lemma_push_step(pre, x, t);
        if t == json_text(x) {
            assert(ts[p] == t);
        }
    }
}

/// Inserting a text where it belongs keeps the texts strictly sorted.
proof fn lemma_insert_sorted(ts: Seq<Seq<char>>, tx: Seq<char>, p: int)
    requires
        0 <= p <= ts.len(),
        forall|a: int, b: int| 0 <= a < b < ts.len() ==> chars_lt(#[trigger] ts[a], #[trigger] ts[b]),
        forall|a: int| 0 <= a < p ==> chars_lt(#[trigger] ts[a], tx),
        p < ts.len() ==> chars_lt(tx, ts[p]),
    ensures
        forall|a: int, b: int|
            0 <= a < b < ts.insert(p, tx).len() ==> chars_lt(
                #[trigger] ts.insert(p, tx)[a],
                #[trigger] ts.insert(p, tx)[b],
            ),
        !ts.contains(tx),
{
    let ts2 = ts.insert(p, tx);
    assert forall|a: int, b: int| 0 <= a < b < ts2.len() implies chars_lt(#[trigger] ts2[a], #[trigger] ts2[b]) by {
        if a < p && b == p {
        } else if a == p && b > p {
            assert(ts2[b] == ts[b - 1]);
            if b - 1 > p {
                assert(chars_lt(ts[p], ts[b - 1]));
                lemma_compare_chars_trans(tx, ts[p], ts[b - 1]);
            }
        } else if a < p && b > p {
            assert(ts2[a] == ts[a] && ts2[b] == ts[b - 1]);
        } else if a < p {
            assert(ts2[a] == ts[a] && ts2[b] == ts[b]);
        } else {
            assert(ts2[a] == ts[a - 1] && ts2[b] == ts[b - 1]);
        }
    }
    if ts.contains(tx) {
        let a = choose|a: int| 0 <= a < ts.len() && ts[a] == tx;
        lemma_compare_chars_props(ts[a], tx);
        if a > p {
            assert(chars_lt(ts[p], ts[a]));
            lemma_compare_chars_props(ts[p], tx);
            lemma_compare_chars_props(ts[p], ts[a]);
        }
    }
}

#[verifier::spinoff_prover]
proof fn lemma_tally_insert(ts: Seq<Seq<char>>, fs: Seq<JVal>, cs: Seq<nat>, pre: Seq<JVal>, x: JVal, p: int)
    requires
        tally_ok(ts, fs, cs, pre),
        0 <= p <= ts.len(),
        forall|a: int| 0 <= a < p ==> chars_lt(#[trigger] ts[a], json_text(x)),
        p < ts.len() ==> chars_lt(json_text(x), ts[p]),
    ensures
        tally_ok(ts.insert(p, json_text(x)), fs.insert(p, x), cs.insert(p, 1), pre.push(x)),
{
    let tx = json_text(x);
    let q = pre.push(x);
    let ts2 = ts.insert(p, tx);
    let fs2 = fs.insert(p, x);
    let cs2 = cs.insert(p, 1);
    lemma_insert_sorted(ts, tx, p);
    assert forall|a: int|
        0 <= a < ts2.len() implies #[trigger] ts2[a] == json_text(fs2[a]) && first_with_text(q, ts2[a])
            == Some(fs2[a]) && cs2[a] == count_text(q, ts2[a]) by {
        lemma_push_step(pre, x, ts2[a]);
        if a < p {
            assert(ts2[a] == ts[a] && fs2[a] == fs[a] && cs2[a] == cs[a]);
            assert(ts.contains(ts[a]));
        } else if a > p {
            assert(ts2[a] == ts[a - 1] && fs2[a] == fs[a - 1] && cs2[a] == cs[a - 1]);
            assert(ts.contains(ts[a - 1]));
        } else {
            assert(!ts.contains(tx));
        }
    }
    assert forall|t: Seq<char>| !ts2.contains(t) implies #[trigger] count_text(q, t) == 0 && first_with_text(q, t) is None by {
        lemma_push_step(pre, x, t);
        if t == tx {
            assert(ts2[p] == t);
        }
        if ts.contains(t) {
            let a = choose|a: int| 0 <= a < ts.len() && ts[a] == t;
            if a < p {
                assert(ts2[a] == t);
            } else {
                assert(ts2[a + 1] == t);
            }
        }
    }
    assert(ts2.len() == fs2.len() && ts2.len() == cs2.len());
    assert(forall|a: int, b: int| 0 <= a < b < ts2.len() ==> chars_lt(#[trigger] ts2[a], #[trigger] ts2[b]));
    assert(forall|a: int|
        0 <= a < ts2.len() ==> #[trigger] ts2[a] == json_text(fs2[a]) && first_with_text(q, ts2[a])
            == Some(fs2[a]) && cs2[a] == count_text(q, ts2[a]));
    assert(forall|t: Seq<char>| !ts2.contains(t) ==> #[trigger] count_text(q, t) == 0 && first_with_text(q, t) is None);
    assert(tally_ok(ts2, fs2, cs2, q));
}

/// Each distinct value with its count, most frequent first and by text
/// among equals.
pub fn tally_values(values: &Vec<Json>) -> (res: Vec<(Json, usize)>)
    ensures
        is_tally(tally_view(res@), view_list(values@)),
{
    let ghost vv = view_list(values@);
    let mut texts: Vec<Vec<char>> = Vec::new();
    let mut firsts: Vec<Json> = Vec::new();
    let mut counts: Vec<usize> = Vec::new();
    let mut k: usize = 0;
    proof {
        assert(vv.take(0) =~= Seq::<JVal>::empty());
        assert(crate::order::chars_seqs(texts@) =~= Seq::<Seq<char>>::empty());
    }
    while k < values.len()
        invariant
            k <= values@.len(),
            vv == view_list(values@),
            tally_ok(crate::order::chars_seqs(texts@), view_list(firsts@), nat_seq(counts@), vv.take(k as int)),
        decreases values@.len() - k,
    {
        let ghost ts = crate::order::chars_seqs(texts@);
        let ghost fs = view_list(firsts@);
        let ghost cs = nat_seq(counts@);
        let ghost pre = vv.take(k as int);
        let x = &values[k];
        let tx = render_compact(x);
        assert(vv[k as int] == x@);
        assert(vv.take(k + 1) =~= pre.push(x@));
        let mut p: usize = 0;
        while p < texts.len() && compare_chars_exec(&texts[p], &tx) < 0
            invariant
                p <= texts@.len(),
                ts == crate::order::chars_seqs(texts@),
                forall|a: int| 0 <= a < p ==> chars_lt(#[trigger] ts[a], tx@),
            decreases texts@.len() - p,
        {
            p = p + 1;
        }
        let found = p < texts.len() && chars_eq(&texts[p], &tx);
        if found {
            let c = counts[p];
            proof {
                assert(ts[p as int] == texts@[p as int]@);
                assert(ts[p as int] == tx@);
                assert(cs[p as int] == c);
                lemma_count_text_bound(pre, tx@);
                lemma_tally_bump(ts, fs, cs, pre, x@, p as int);
            }
            counts.set(p, c + 1);
            assert(nat_seq(counts@) =~= cs.update(p as int, cs[p as int] + 1));
        } else {
            proof {
                if p < texts.len() {
                    lemma_compare_chars_props(ts[p as int], tx@);
                }
                lemma_tally_insert(ts, fs, cs, pre, x@, p as int);
            }
            texts.insert(p, tx);
            firsts.insert(p, json_clone(x));
            counts.insert(p, 1);
            assert(crate::order::chars_seqs(texts@) =~= ts.insert(p as int, json_text(x@)));
            assert(view_list(firsts@) =~= fs.insert(p as int, x@));
            assert(nat_seq(counts@) =~= cs.insert(p as int, 1));
        }
        k = k + 1;
    }
    let ghost ts = crate::order::chars_seqs(texts@);
    let ghost fs = view_list(firsts@);
    let ghost cs = nat_seq(counts@);
    assert(vv.take(values@.len() as int) =~= vv);
    // Order by count, most frequent first; ties stay in text order.
    let order = stable_order_by_count_desc(&counts);
    let mut out: Vec<(Json, usize)> = Vec::new();
    let mut q: usize = 0;
    while q < order.len()
        invariant
            q <= order@.len(),
            stable_by_count_desc(cs, nat_seq(order@)),
            cs == nat_seq(counts@),
            fs == view_list(firsts@),
            ts.len() == fs.len(),
            ts.len() == cs.len(),
            out@.len() == q,
            forall|x: int| 0 <= x < q ==> (#[trigger] out@[x]).0@ == fs[order@[x] as int] && out@[x].1
                == counts@[order@[x] as int],
        decreases order@.len() - q,
    {
        let ix = order[q];
        assert(nat_seq(order@)[q as int] == ix as nat);
        out.push((json_clone(&firsts[ix]), counts[ix]));
        q = q + 1;
    }
    proof {
        let tv = tally_view(out@);
        assert forall|i: int, j: int| 0 <= i < j < tv.len() implies tally_before(#[trigger] tv[i], #[trigger] tv[j]) by {
            let a = order@[i] as int;
            let b = order@[j] as int;
            assert(nat_seq(order@)[i] == a && nat_seq(order@)[j] == b);
            if cs[a] == cs[b] {
                assert(a < b);
                assert(chars_lt(ts[a], ts[b]));
            }
        }
        assert forall|i: int| 0 <= i < tv.len() implies first_with_text(vv, json_text((#[trigger] tv[i]).0)) == Some(
            tv[i].0,
        ) && tv[i].1 == count_text(vv, json_text(tv[i].0)) by {
            let a = order@[i] as int;
            assert(nat_seq(order@)[i] == a);
            assert(ts[a] == json_text(fs[a]));
        }
        assert forall|m: int| 0 <= m < vv.len() implies exists|i: int|
            0 <= i < tv.len() && json_text((#[trigger] tv[i]).0) == json_text(#[trigger] vv[m]) by {
            let t = json_text(vv[m]);
            if !ts.contains(t) {
                lemma_count_positive(vv, m);
                assert(count_text(vv, t) == 0);
            }
            let a = choose|a: int| 0 <= a < ts.len() && ts[a] == t;
            lemma_permutation_onto(nat_seq(order@), cs.len(), a as nat);
            let i = choose|i: int| 0 <= i < order@.len() && nat_seq(order@)[i] == a;
            assert(ts[a] == json_text(fs[a]));
            assert(json_text(tv[i].0) == json_text(vv[m]));
        }
    }
    out
}

pub open spec fn listed(texts: Seq<Vec<char>>, t: Seq<char>) -> bool {
    exists|a: int| 0 <= a < texts.len() && (#[trigger] texts[a])@ == t
}

pub open spec fn count_pair_before_at(counts: Seq<usize>, a: int, b: int) -> bool {
    counts[a] > counts[b] || (counts[a] == counts[b] && a < b)
}

/// A value's text is counted at least once.
proof fn lemma_count_positive(values: Seq<JVal>, m: int)
    requires
        0 <= m < values.len(),
    ensures
        count_text(values, json_text(values[m])) > 0,
    decreases values.len(),
{
    if m < values.len() - 1 {
        lemma_count_positive(values.drop_last(), m);
    }
}

/// A permutation of `0..n` lists every index.
proof fn lemma_permutation_onto(p: Seq<nat>, n: nat, a: nat)
    requires
        crate::order::is_permutation(p, n),
        a < n,
    ensures
        exists|i: int| 0 <= i < p.len() && p[i] == a,
{
    let q = p.map_values(|x: nat| x as int);
    assert(q.no_duplicates()) by {
        assert forall|i: int, j: int| 0 <= i < q.len() && 0 <= j < q.len() && i != j implies q[i]
            != q[j] by {
            if i < j {
                assert(p[i] != p[j]);
            } else {
                assert(p[j] != p[i]);
            }
        }
    }
    q.unique_seq_to_set();
    let range = vstd::set_lib::set_int_range(0, n as int);
    vstd::set_lib::lemma_int_range(0, n as int);
    if !(exists|i: int| 0 <= i < p.len() && p[i] == a) {
        assert(q.to_set().subset_of(range.remove(a as int))) by {
            assert forall|x: int| q.to_set().contains(x) implies range.remove(a as int).contains(x) by {
                let i = choose|i: int| 0 <= i < q.len() && q[i] == x;
                assert(p[i] < n);
                assert(p[i] != a);
            }
        }
        vstd::set_lib::lemma_len_subset(q.to_set(), range.remove(a as int));
        assert(false);
    }
}


// ---------------------------------------------------------------------------
// Hole summaries
// ---------------------------------------------------------------------------

pub open spec fn tally_of(h: HoleReport) -> Seq<(JVal, nat)> {
    tally_view(h.distinct_values@)
}

/// Summarise the values observed at one hole.
pub fn summarise_hole(address: String, obs: &Observations, total: usize, repo_names: &Vec<String>) -> (res: HoleReport)
    requires
        forall|k: int|
            0 <= k < obs.instance_indices@.len() ==> #[trigger] obs.instance_indices@[k]
                < repo_names@.len(),
    ensures
        res.address == address,
        res.present_in == obs.values@.len(),
        res.total == total,
        is_tally(tally_of(res), obs@.1),
        res.kind == classify_spec(obs@.1, obs.values@.len() as nat, total as nat),
        res.source_hint == source_spec(obs@.0, obs@.1, strs(repo_names@)),
{
    let present_in = obs.values.len();
    let distinct_values = tally_values(&obs.values);
    let kind = classify_hole(&obs.values, present_in, total);
    let source_hint = detect_source(obs, repo_names);
    HoleReport { address, present_in, total, distinct_values, kind, source_hint }
}

// ---------------------------------------------------------------------------
// Hole addresses
// ---------------------------------------------------------------------------

/// The address of every hole under `t` (whose address is `path`), in
/// template order; the root is `$`.
pub open spec fn hole_addrs(t: TmplV, path: Seq<char>) -> Seq<(nat, Seq<char>)>
    decreases t, 0nat,
{
    match t {
        TmplV::Literal(_) => Seq::empty(),
        TmplV::Hole(id) => seq![
            (
                id,
                if path.len() == 0 {
                    seq!['$']
                } else {
                    path
                },
            ),
        ],
        TmplV::Object(fs) => hole_addrs_fields(fs, path, fs.len()),
        TmplV::Array(ts) => hole_addrs_items(ts, path, ts.len()),
        TmplV::Unordered(fs) => hole_addrs_clusters(fs, path, fs.len()),
    }
}

pub open spec fn hole_addrs_fields(fs: Seq<(Seq<char>, TmplV, nat, nat)>, path: Seq<char>, n: nat) -> Seq<
    (nat, Seq<char>),
>
    decreases fs, n,
{
    if n == 0 || n > fs.len() {
        Seq::empty()
    } else {
        hole_addrs_fields(fs, path, (n - 1) as nat) + hole_addrs(fs[n - 1].1, join_key(path, fs[n - 1].0))
    }
}

pub open spec fn hole_addrs_items(ts: Seq<TmplV>, path: Seq<char>, n: nat) -> Seq<(nat, Seq<char>)>
    decreases ts, n,
{
    if n == 0 || n > ts.len() {
        Seq::empty()
    } else {
        hole_addrs_items(ts, path, (n - 1) as nat) + hole_addrs(ts[n - 1], join_index(path, (n - 1) as nat))
    }
}

/// A cluster of a set-semantics array is addressed by its position among
/// the clusters.
pub open spec fn hole_addrs_clusters(fs: Seq<(TmplV, nat, nat)>, path: Seq<char>, n: nat) -> Seq<
    (nat, Seq<char>),
>
    decreases fs, n,
{
    if n == 0 || n > fs.len() {
        Seq::empty()
    } else {
        hole_addrs_clusters(fs, path, (n - 1) as nat) + hole_addrs(
            fs[n - 1].0,
            join_index(path, (n - 1) as nat),
        )
    }
}

pub open spec fn id_addrs_view(v: Seq<(usize, String)>) -> Seq<(nat, Seq<char>)> {
    v.map_values(|p: (usize, String)| (p.0 as nat, p.1@))
}

#[verifier::loop_isolation(false)]
fn collect_into(t: &Template, path: &Vec<char>, out: &mut Vec<(usize, String)>)
    ensures
        id_addrs_view(final(out)@) == id_addrs_view(old(out)@) + hole_addrs(t@, path@),
    decreases t,
{
    broadcast use group_template_view;

    let ghost start = id_addrs_view(out@);
    match t {
        Template::Literal(_) => {
            assert(id_addrs_view(out@) =~= start + hole_addrs(t@, path@));
        },
        Template::Hole { id } => {
            let a = if path.len() == 0 {
                let mut v: Vec<char> = Vec::new();
                v.push('$');
                v
            } else {
                crate::text::slice(path, 0, path.len())
            };
            assert(path@.subrange(0, path@.len() as int) =~= path@);
            out.push((*id, string_of(&a)));
            assert(id_addrs_view(out@) =~= start + hole_addrs(t@, path@));
        },
        Template::Object(fs) => {
            let ghost fv = named_fields_view(fs@);
            let mut i: usize = 0;
            assert(id_addrs_view(out@) =~= start + hole_addrs_fields(fv, path@, 0));
            while i < fs.len()
                invariant
                    i <= fs@.len(),
                    fv == named_fields_view(fs@),
                    fv.len() == fs@.len(),
                    id_addrs_view(out@) == start + hole_addrs_fields(fv, path@, i as nat),
                decreases fs@.len() - i,
            {
                assert(fv[i as int].0 == fs@[i as int].0@);
                assert(fv[i as int].1 == fs@[i as int].1.value@);
                let next = join_key_exec(path, &fs[i].0);
                collect_into(&fs[i].1.value, &next, out);
                assert(id_addrs_view(out@) =~= start + hole_addrs_fields(fv, path@, (i + 1) as nat));
                i = i + 1;
            }
        },
        Template::Array(ts) => {
            let ghost tv = tmpls_view(ts@);
            let mut i: usize = 0;
            assert(id_addrs_view(out@) =~= start + hole_addrs_items(tv, path@, 0));
            while i < ts.len()
                invariant
                    i <= ts@.len(),
                    tv == tmpls_view(ts@),
                    tv.len() == ts@.len(),
                    id_addrs_view(out@) == start + hole_addrs_items(tv, path@, i as nat),
                decreases ts@.len() - i,
            {
                assert(tv[i as int] == ts@[i as int]@);
                let next = join_index_exec(path, i);
                collect_into(&ts[i], &next, out);
                assert(id_addrs_view(out@) =~= start + hole_addrs_items(tv, path@, (i + 1) as nat));
                i = i + 1;
            }
        },
        Template::Unordered(fs) => {
            let ghost fv = fields_view(fs@);
            let mut i: usize = 0;
            assert(id_addrs_view(out@) =~= start + hole_addrs_clusters(fv, path@, 0));
            while i < fs.len()
                invariant
                    i <= fs@.len(),
                    fv == fields_view(fs@),
                    fv.len() == fs@.len(),
                    id_addrs_view(out@) == start + hole_addrs_clusters(fv, path@, i as nat),
                decreases fs@.len() - i,
            {
                assert(fv[i as int].0 == fs@[i as int].value@);
                let next = join_index_exec(path, i);
                collect_into(&fs[i].value, &next, out);
                assert(id_addrs_view(out@) =~= start + hole_addrs_clusters(fv, path@, (i + 1) as nat));
                i = i + 1;
            }
        },
    }
}

/// One step down a template: into an object's field (its key, and its
/// position among the fields), or to an element of an array (or a cluster
/// of a set-semantics array).
pub enum Step {
    Field(Seq<char>, nat),
    At(nat),
}

/// The text of a path of steps: fields joined by `.`, positions as `[i]`.
pub open spec fn steps_text(c: Seq<Step>) -> Seq<char>
    decreases c.len(),
{
    if c.len() == 0 {
        Seq::empty()
    } else {
        let p = steps_text(c.drop_last());
        match c.last() {
            Step::Field(k, _) => join_key(p, k),
            Step::At(i) => join_index(p, i),
        }
    }
}

/// The address of a path as a report writes it: `$` for the root.
pub open spec fn addr_text(c: Seq<Step>) -> Seq<char> {
    if steps_text(c).len() == 0 {
        seq!['$']
    } else {
        steps_text(c)
    }
}

/// Following `c` down `t` can end at `h`: a field step goes into a field of
/// that name, a position step into that element or cluster.
pub open spec fn reaches(t: TmplV, c: Seq<Step>, h: TmplV) -> bool
    decreases c.len(),
{
    if c.len() == 0 {
        t == h
    } else {
        match c[0] {
            Step::Field(k, j) => match t {
                TmplV::Object(fs) => j < fs.len() && fs[j as int].0 == k && reaches(fs[j as int].1, c.drop_first(), h),
                _ => false,
            },
            Step::At(i) => match t {
                TmplV::Array(ts) => i < ts.len() && reaches(ts[i as int], c.drop_first(), h),
                TmplV::Unordered(fs) => i < fs.len() && reaches(fs[i as int].0, c.drop_first(), h),
                _ => false,
            },
        }
    }
}

/// `e` names hole `e.0` at the address of a path, below `pre`, that reaches
/// that hole in `t`.
pub open spec fn addressed(t: TmplV, pre: Seq<Step>, e: (nat, Seq<char>)) -> bool {
    exists|c: Seq<Step>| reaches(t, c, TmplV::Hole(e.0)) && e.1 == #[trigger] addr_text(pre + c)
}

proof fn lemma_push_text(pre: Seq<Step>, st: Step)
    ensures
        steps_text(pre.push(st)) == match st {
            Step::Field(k, _) => join_key(steps_text(pre), k),
            Step::At(i) => join_index(steps_text(pre), i),
        },
{
    assert(pre.push(st).drop_last() =~= pre);
}

proof fn lemma_extend_addressed(t: TmplV, sub: TmplV, pre: Seq<Step>, st: Step, e: (nat, Seq<char>))
    requires
        addressed(sub, pre.push(st), e),
        forall|c: Seq<Step>| reaches(sub, c, TmplV::Hole(e.0)) ==> #[trigger] reaches(t, seq![st] + c, TmplV::Hole(e.0)),
    ensures
        addressed(t, pre, e),
{
    let c = choose|c: Seq<Step>| reaches(sub, c, TmplV::Hole(e.0)) && e.1 == #[trigger] addr_text(pre.push(st) + c);
    assert(pre.push(st) + c =~= pre + (seq![st] + c));
    assert(reaches(t, seq![st] + c, TmplV::Hole(e.0)));
    assert(e.1 == addr_text(pre + (seq![st] + c)));
}

proof fn lemma_hole_addrs_addressed(t: TmplV, pre: Seq<Step>)
    ensures
        forall|e: (nat, Seq<char>)| #[trigger] hole_addrs(t, steps_text(pre)).contains(e) ==> addressed(t, pre, e),
    decreases t, 0nat,
{
    let path = steps_text(pre);
    match t {
        TmplV::Literal(_) => {
            assert(hole_addrs(t, path) =~= Seq::<(nat, Seq<char>)>::empty());
        },
        TmplV::Hole(id) => {
            assert forall|e: (nat, Seq<char>)| #[trigger] hole_addrs(t, path).contains(e) implies addressed(t, pre, e) by {
                assert(hole_addrs(t, path)[0] == e);
                let c = Seq::<Step>::empty();
                assert(pre + c =~= pre);
                assert(reaches(t, c, TmplV::Hole(e.0)));
                assert(e.1 == addr_text(pre + c));
            }
        },
        TmplV::Object(fs) => {
            lemma_fields_addressed(t, fs, pre, fs.len());
            assert(hole_addrs(t, path) == hole_addrs_fields(fs, path, fs.len()));
        },
        TmplV::Array(ts) => {
            lemma_items_addressed(t, ts, pre, ts.len());
            assert(hole_addrs(t, path) == hole_addrs_items(ts, path, ts.len()));
        },
        TmplV::Unordered(fs) => {
            lemma_clusters_addressed(t, fs, pre, fs.len());
            assert(hole_addrs(t, path) == hole_addrs_clusters(fs, path, fs.len()));
        },
    }
}

proof fn lemma_fields_addressed(t: TmplV, fs: Seq<(Seq<char>, TmplV, nat, nat)>, pre: Seq<Step>, n: nat)
    requires
        t == TmplV::Object(fs),
    ensures
        forall|e: (nat, Seq<char>)| #[trigger] hole_addrs_fields(fs, steps_text(pre), n).contains(e) ==> addressed(t, pre, e),
    decreases fs, n,
{
    let path = steps_text(pre);
    if n > 0 && n <= fs.len() {
        lemma_fields_addressed(t, fs, pre, (n - 1) as nat);
        let k = fs[n - 1].0;
        let sub = fs[n - 1].1;
        let st = Step::Field(k, (n - 1) as nat);
        lemma_push_text(pre, st);
        lemma_hole_addrs_addressed(sub, pre.push(st));
        let a0 = hole_addrs_fields(fs, path, (n - 1) as nat);
        let b0 = hole_addrs(sub, join_key(path, k));
        assert forall|e: (nat, Seq<char>)| #[trigger] hole_addrs_fields(fs, path, n).contains(e) implies addressed(t, pre, e) by {
            assert(hole_addrs_fields(fs, path, n) == a0 + b0);
            let q = choose|q: int| 0 <= q < (a0 + b0).len() && (a0 + b0)[q] == e;
            if q < a0.len() {
                assert(a0[q] == e);
                assert(a0.contains(e));
            } else {
                assert(b0[q - a0.len()] == e);
                assert(b0.contains(e));
                assert forall|c: Seq<Step>| reaches(sub, c, TmplV::Hole(e.0)) implies #[trigger] reaches(
                    t,
                    seq![st] + c,
                    TmplV::Hole(e.0),
                ) by {
                    let cc = seq![st] + c;
                    assert(cc[0] == st);
                    assert(cc.drop_first() =~= c);
                }
                lemma_extend_addressed(t, sub, pre, st, e);
            }
        }
    }
}

proof fn lemma_items_addressed(t: TmplV, ts: Seq<TmplV>, pre: Seq<Step>, n: nat)
    requires
        t == TmplV::Array(ts),
    ensures
        forall|e: (nat, Seq<char>)| #[trigger] hole_addrs_items(ts, steps_text(pre), n).contains(e) ==> addressed(t, pre, e),
    decreases ts, n,
{
    let path = steps_text(pre);
    if n > 0 && n <= ts.len() {
        lemma_items_addressed(t, ts, pre, (n - 1) as nat);
        let sub = ts[n - 1];
        let st = Step::At((n - 1) as nat);
        lemma_push_text(pre, st);
        lemma_hole_addrs_addressed(sub, pre.push(st));
        let a0 = hole_addrs_items(ts, path, (n - 1) as nat);
        let b0 = hole_addrs(sub, join_index(path, (n - 1) as nat));
        assert forall|e: (nat, Seq<char>)| #[trigger] hole_addrs_items(ts, path, n).contains(e) implies addressed(t, pre, e) by {
            assert(hole_addrs_items(ts, path, n) == a0 + b0);
            let q = choose|q: int| 0 <= q < (a0 + b0).len() && (a0 + b0)[q] == e;
            if q < a0.len() {
                assert(a0[q] == e);
                assert(a0.contains(e));
            } else {
                assert(b0[q - a0.len()] == e);
                assert(b0.contains(e));
                assert forall|c: Seq<Step>| reaches(sub, c, TmplV::Hole(e.0)) implies #[trigger] reaches(
                    t,
                    seq![st] + c,
                    TmplV::Hole(e.0),
                ) by {
                    let cc = seq![st] + c;
                    assert(cc[0] == st);
                    assert(cc.drop_first() =~= c);
                }
                lemma_extend_addressed(t, sub, pre, st, e);
            }
        }
    }
}

proof fn lemma_clusters_addressed(t: TmplV, fs: Seq<(TmplV, nat, nat)>, pre: Seq<Step>, n: nat)
    requires
        t == TmplV::Unordered(fs),
    ensures
        forall|e: (nat, Seq<char>)| #[trigger] hole_addrs_clusters(fs, steps_text(pre), n).contains(e) ==> addressed(t, pre, e),
    decreases fs, n,
{
    let path = steps_text(pre);
    if n > 0 && n <= fs.len() {
        lemma_clusters_addressed(t, fs, pre, (n - 1) as nat);
        let sub = fs[n - 1].0;
        let st = Step::At((n - 1) as nat);
        lemma_push_text(pre, st);
        lemma_hole_addrs_addressed(sub, pre.push(st));
        let a0 = hole_addrs_clusters(fs, path, (n - 1) as nat);
        let b0 = hole_addrs(sub, join_index(path, (n - 1) as nat));
        assert forall|e: (nat, Seq<char>)| #[trigger] hole_addrs_clusters(fs, path, n).contains(e) implies addressed(t, pre, e) by {
            assert(hole_addrs_clusters(fs, path, n) == a0 + b0);
            let q = choose|q: int| 0 <= q < (a0 + b0).len() && (a0 + b0)[q] == e;
            if q < a0.len() {
                assert(a0[q] == e);
                assert(a0.contains(e));
            } else {
                assert(b0[q - a0.len()] == e);
                assert(b0.contains(e));
                assert forall|c: Seq<Step>| reaches(sub, c, TmplV::Hole(e.0)) implies #[trigger] reaches(
                    t,
                    seq![st] + c,
                    TmplV::Hole(e.0),
                ) by {
                    let cc = seq![st] + c;
                    assert(cc[0] == st);
                    assert(cc.drop_first() =~= c);
                }
                lemma_extend_addressed(t, sub, pre, st, e);
            }
        }
    }
}

/// Each hole is recorded at the address of a path down the template that
/// ends at that hole: a hole under field `k` is addressed through `k`.
pub proof fn lemma_hole_addresses_lead_to_holes(t: TmplV)
    ensures
        forall|e: (nat, Seq<char>)| #[trigger] hole_addrs(t, Seq::empty()).contains(e) ==> exists|c: Seq<Step>|
            reaches(t, c, TmplV::Hole(e.0)) && e.1 == #[trigger] addr_text(c),
{
    let e0 = Seq::<Step>::empty();
    assert(steps_text(e0) == Seq::<char>::empty());
    lemma_hole_addrs_addressed(t, e0);
    assert forall|e: (nat, Seq<char>)| #[trigger] hole_addrs(t, Seq::empty()).contains(e) implies exists|c: Seq<Step>|
        reaches(t, c, TmplV::Hole(e.0)) && e.1 == #[trigger] addr_text(c) by {
        let c = choose|c: Seq<Step>| reaches(t, c, TmplV::Hole(e.0)) && e.1 == #[trigger] addr_text(e0 + c);
        assert(e0 + c =~= c);
    }
}

/// Every hole's id with its address, in template order.
pub fn collect_addresses(t: &Template) -> (res: Vec<(usize, String)>)
    ensures
        id_addrs_view(res@) == hole_addrs(t@, Seq::empty()),
        forall|k: int| 0 <= k < res@.len() ==> addressed(t@, Seq::empty(), (#[trigger] id_addrs_view(res@)[k])),
{
    let mut out: Vec<(usize, String)> = Vec::new();
    let empty: Vec<char> = Vec::new();
    collect_into(t, &empty, &mut out);
    assert(id_addrs_view(out@) =~= hole_addrs(t@, Seq::empty()));
    proof {
        let v = id_addrs_view(out@);
        lemma_hole_addrs_addressed(t@, Seq::empty());
        assert(steps_text(Seq::<Step>::empty()) == Seq::<char>::empty());
        assert forall|k: int| 0 <= k < out@.len() implies addressed(t@, Seq::empty(), (#[trigger] id_addrs_view(out@)[k])) by {
            assert(v.contains(v[k]));
        }
    }
    out
}

/// The address recorded for hole `id` (the last one recorded, as a map
/// keeps), or `?id` when none was.
pub open spec fn address_of(addrs: Seq<(nat, Seq<char>)>, id: nat) -> Seq<char>
    decreases addrs.len(),
{
    if addrs.len() == 0 {
        seq!['?'] + decimal(id)
    } else if addrs.last().0 == id {
        addrs.last().1
    } else {
        address_of(addrs.drop_last(), id)
    }
}

pub fn address_for(addrs: &Vec<(usize, String)>, id: usize) -> (res: String)
    ensures
        res@ == address_of(id_addrs_view(addrs@), id as nat),
{
    let ghost av = id_addrs_view(addrs@);
    let mut i: usize = addrs.len();
    assert(av.take(i as int) =~= av);
    while i > 0
        invariant
            i <= addrs@.len(),
            av == id_addrs_view(addrs@),
            address_of(av, id as nat) == address_of(av.take(i as int), id as nat),
        decreases i,
    {
        assert(av.take(i as int).drop_last() =~= av.take(i - 1));
        assert(av.take(i as int).last() == av[i - 1]);
        if addrs[i - 1].0 == id {
            return addrs[i - 1].1.clone();
        }
        i = i - 1;
    }
    let mut out: Vec<char> = Vec::new();
    out.push('?');
    append(&mut out, &decimal_exec(id));
    assert(av.take(0) =~= Seq::<(nat, Seq<char>)>::empty());
    assert(out@ =~= seq!['?'] + decimal(id as nat));
    string_of(&out)
}


// ---------------------------------------------------------------------------
// Template text
// ---------------------------------------------------------------------------

/// Two spaces per level of indentation.
pub open spec fn pad(indent: nat) -> Seq<char>
    decreases indent,
{
    if indent == 0 {
        Seq::empty()
    } else {
        pad((indent - 1) as nat) + seq![' ', ' ']
    }
}

/// A literal as shown in a template: strings in double quotes (as they
/// are, unescaped), anything else as compact JSON.
pub open spec fn literal_text(v: JVal) -> Seq<char> {
    match v {
        JVal::Str(s) => seq!['"'] + s + seq!['"'],
        _ => json_text(v),
    }
}

pub open spec fn hole_text(id: nat) -> Seq<char> {
    seq!['⟨', '?'] + decimal(id) + seq!['⟩']
}

/// The text of a template at the given indentation.
pub open spec fn render(t: TmplV, indent: nat) -> Seq<char>
    decreases t, 0nat,
{
    match t {
        TmplV::Literal(v) => literal_text(v),
        TmplV::Hole(id) => hole_text(id),
        TmplV::Object(fs) => render_fields(fs, indent, fs.len()),
        TmplV::Array(ts) => render_items(ts, indent, ts.len()),
        TmplV::Unordered(fs) => render_clusters(fs, indent, fs.len()),
    }
}

/// One `key: value` line per field (`key?` for an optional one), each on
/// a new line except the very first field of the top level.
pub open spec fn render_fields(fs: Seq<(Seq<char>, TmplV, nat, nat)>, indent: nat, n: nat) -> Seq<char>
    decreases fs, n,
{
    if n == 0 || n > fs.len() {
        Seq::empty()
    } else {
        render_fields(fs, indent, (n - 1) as nat) + (if n - 1 > 0 || indent > 0 {
            seq!['\n']
        } else {
            Seq::empty()
        }) + pad(indent) + fs[n - 1].0 + (if fs[n - 1].2 == fs[n - 1].3 {
            Seq::empty()
        } else {
            seq!['?']
        }) + seq![':', ' '] + match fs[n - 1].1 {
            TmplV::Literal(v) => literal_text(v),
            TmplV::Hole(id) => hole_text(id),
            _ => render(fs[n - 1].1, indent + 1),
        }
    }
}

/// One `- item` line per element.
pub open spec fn render_items(ts: Seq<TmplV>, indent: nat, n: nat) -> Seq<char>
    decreases ts, n,
{
    if n == 0 || n > ts.len() {
        Seq::empty()
    } else {
        render_items(ts, indent, (n - 1) as nat) + seq!['\n'] + pad(indent) + seq!['-', ' '] + match ts[n
            - 1] {
            TmplV::Literal(v) => literal_text(v),
            TmplV::Hole(id) => hole_text(id),
            _ => trim_start(render(ts[n - 1], indent + 1)),
        }
    }
}

/// A set-semantics array is shown like a positional one, one `- item`
/// line per cluster.
pub open spec fn render_clusters(fs: Seq<(TmplV, nat, nat)>, indent: nat, n: nat) -> Seq<char>
    decreases fs, n,
{
    if n == 0 || n > fs.len() {
        Seq::empty()
    } else {
        render_clusters(fs, indent, (n - 1) as nat) + seq!['\n'] + pad(indent) + seq!['-', ' '] + match fs[n
            - 1].0 {
            TmplV::Literal(v) => literal_text(v),
            TmplV::Hole(id) => hole_text(id),
            _ => trim_start(render(fs[n - 1].0, indent + 1)),
        }
    }
}

pub fn render_literal(v: &Json) -> (res: Vec<char>)
    ensures
        res@ == literal_text(v@),
{
    match v {
        Json::Str(s) => {
            let mut out: Vec<char> = Vec::new();
            out.push('"');
            append(&mut out, &chars_of(s.as_str()));
            out.push('"');
            assert(out@ =~= literal_text(v@));
            out
        },
        _ => render_compact(v),
    }
}

fn hole_text_exec(id: usize) -> (res: Vec<char>)
    ensures
        res@ == hole_text(id as nat),
{
    let mut out: Vec<char> = Vec::new();
    out.push('⟨');
    out.push('?');
    append(&mut out, &decimal_exec(id));
    out.push('⟩');
    assert(out@ =~= hole_text(id as nat));
    out
}

/// The text of a field's or element's value: literals and holes inline,
/// nested structures rendered one level deeper.
fn value_text(t: &Template, pad_chars: &Vec<char>, Ghost(indent): Ghost<nat>, trim: bool) -> (res: Vec<char>)
    requires
        pad_chars@ == pad(indent),
    ensures
        res@ == match t@ {
            TmplV::Literal(v) => literal_text(v),
            TmplV::Hole(id) => hole_text(id),
            _ => if trim {
                trim_start(render(t@, indent + 1))
            } else {
                render(t@, indent + 1)
            },
        },
    decreases t, 1nat,
{
    match t {
        Template::Literal(v) => render_literal(v),
        Template::Hole { id } => hole_text_exec(*id),
        _ => {
            let mut deeper = crate::text::slice(pad_chars, 0, pad_chars.len());
            deeper.push(' ');
            deeper.push(' ');
            assert(deeper@ =~= pad(indent + 1));
            let r = render_at(t, &deeper, Ghost(indent + 1));
            if trim {
                trim_start_exec(&r)
            } else {
                r
            }
        },
    }
}

#[verifier::loop_isolation(false)]
#[verifier::spinoff_prover]
#[verifier::rlimit(40)]
fn render_at(t: &Template, pad_chars: &Vec<char>, Ghost(indent): Ghost<nat>) -> (res: Vec<char>)
    requires
        pad_chars@ == pad(indent),
    ensures
        res@ == render(t@, indent),
    decreases t, 0nat,
{
    broadcast use group_template_view;

    proof {
        lemma_pad_len(indent);
    }
    match t {
        Template::Literal(v) => render_literal(v),
        Template::Hole { id } => hole_text_exec(*id),
        Template::Object(fs) => {
            let ghost fv = named_fields_view(fs@);
            let mut out: Vec<char> = Vec::new();
            let mut i: usize = 0;
            while i < fs.len()
                invariant
                    i <= fs@.len(),
                    fv == named_fields_view(fs@),
                    fv.len() == fs@.len(),
                    out@ == render_fields(fv, indent, i as nat),
                decreases fs@.len() - i,
            {
                assert(fv[i as int] == (fs@[i as int].0@, fs@[i as int].1.value@, fs@[i as int].1.present_in as nat, fs@[i as int].1.total as nat));
                if i > 0 || pad_chars.len() > 0 {
                    out.push('\n');
                }
                append(&mut out, pad_chars);
                append(&mut out, &chars_of(fs[i].0.as_str()));
                if !fs[i].1.is_required() {
                    out.push('?');
                }
                out.push(':');
                out.push(' ');
                let v = value_text(&fs[i].1.value, pad_chars, Ghost(indent), false);
                append(&mut out, &v);
                assert(out@ =~= render_fields(fv, indent, (i + 1) as nat));
                i = i + 1;
            }
            out
        },
        Template::Array(ts) => {
            let ghost tv = tmpls_view(ts@);
            let mut out: Vec<char> = Vec::new();
            let mut i: usize = 0;
            while i < ts.len()
                invariant
                    i <= ts@.len(),
                    tv == tmpls_view(ts@),
                    tv.len() == ts@.len(),
                    out@ == render_items(tv, indent, i as nat),
                decreases ts@.len() - i,
            {
                assert(tv[i as int] == ts@[i as int]@);
                out.push('\n');
                append(&mut out, pad_chars);
                out.push('-');
                out.push(' ');
                let v = value_text(&ts[i], pad_chars, Ghost(indent), true);
                append(&mut out, &v);
                assert(out@ =~= render_items(tv, indent, (i + 1) as nat));
                i = i + 1;
            }
            out
        },
        Template::Unordered(fs) => {
            let ghost fv = fields_view(fs@);
            let mut out: Vec<char> = Vec::new();
            let mut i: usize = 0;
            while i < fs.len()
                invariant
                    i <= fs@.len(),
                    fv == fields_view(fs@),
                    fv.len() == fs@.len(),
                    out@ == render_clusters(fv, indent, i as nat),
                decreases fs@.len() - i,
            {
                assert(fv[i as int].0 == fs@[i as int].value@);
                out.push('\n');
                append(&mut out, pad_chars);
                out.push('-');
                out.push(' ');
                let v = value_text(&fs[i].value, pad_chars, Ghost(indent), true);
                append(&mut out, &v);
                assert(out@ =~= render_clusters(fv, indent, (i + 1) as nat));
                i = i + 1;
            }
            out
        },
    }
}

pub proof fn lemma_pad_len(indent: nat)
    ensures
        pad(indent).len() == 2 * indent,
    decreases indent,
{
    if indent > 0 {
        lemma_pad_len((indent - 1) as nat);
    }
}

/// Render a template as indented text.
pub fn render_template(t: &Template, indent: usize) -> (res: String)
    ensures
        res@ == render(t@, indent as nat),
{
    let mut p: Vec<char> = Vec::new();
    let mut i: usize = 0;
    while i < indent
        invariant
            i <= indent,
            p@ == pad(i as nat),
        decreases indent - i,
    {
        p.push(' ');
        p.push(' ');
        i = i + 1;
        assert(p@ =~= pad(i as nat));
    }
    let out = render_at(t, &p, Ghost(indent as nat));
    string_of(&out)
}

} // verus!
