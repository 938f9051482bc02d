//! Pens: named subsets of the fleet, cloned with a shared branch, for
//! running codemods across.
//!
//! This module holds what a pen decides: the state of each repository as
//! read from git's answers, which repositories and ops a rewrite takes
//! in, how the ops are staged over a repository's files, what the
//! repository's op ledger becomes afterwards, and each op's pen-level
//! status. Running git, reading and writing files and validating against
//! schemas happen around it.

use vstd::prelude::*;

use crate::address::strings_view;
use crate::holes::{lossy_text, utf8_lossy};
use crate::json::{JVal, Json};
use crate::match_pred::{MatchPredicate, PredV, find_match_addresses, match_addresses, parse_predicate};
use crate::parse::Format;
use crate::rewrite::{
    ActV, Action, ApplyErrV, OpOutcome, RewriteOp, Selector, apply_at, apply_error_text, apply_spec, selector_text,
};
use crate::text::{append, append_str, chars_lt, compare_chars_exec, decimal, decimal_exec, find_from};
use crate::rewrite::{OpStatus, PlanError, plan_spec, plan_rewrite, first_plan_error, is_pred_error};
use crate::text::{
    all_digits, chars_of, digits_value, is_ws, is_ws_exec, parse_usize, parse_usize_exec, string_of, trim,
    trim_exec,
};

verus! {

// ---------------------------------------------------------------------------
// Repository state
// ---------------------------------------------------------------------------

/// Whether a pen clone has uncommitted changes.
#[derive(Debug, Clone, Copy, PartialEq, Eq, Structural)]
pub enum WorkTree {
    Clean,
    Dirty,
    Missing,
}

/// Whether a pen clone has seen the repository's latest push.
#[derive(Debug, Clone, Copy, PartialEq, Eq, Structural)]
pub enum Freshness {
    Fresh,
    Stale,
    Unknown,
}

/// Whether the pen branch carries commits, and whether they were pushed.
#[derive(Debug, Clone, Copy, PartialEq, Eq, Structural)]
pub enum RunState {
    NotRun,
    RunLocal,
    RunPushed,
}

/// Where the pen branch stands against its remote counterpart.
#[derive(Debug, Clone, Copy, PartialEq, Eq, Structural)]
pub enum Divergence {
    UpToDate,
    Ahead,
    Behind,
    Diverged,
    Unknown,
}

/// One repository of a pen, as it stands.
#[derive(Debug, Clone)]
pub struct RepoState {
    pub owner: String,
    pub repo: String,
    pub working_tree: WorkTree,
    pub freshness: Freshness,
    pub run_state: RunState,
    pub divergence: Divergence,
    pub ahead: u32,
    pub behind: u32,
}

impl RepoState {
    /// The state of a repository whose clone is missing.
    pub fn missing(owner: &str, repo: &str) -> (res: RepoState)
        ensures
            res.owner@ == owner@,
            res.repo@ == repo@,
            res.working_tree == WorkTree::Missing,
            res.freshness == Freshness::Unknown,
            res.run_state == RunState::NotRun,
            res.divergence == Divergence::Unknown,
            res.ahead == 0,
            res.behind == 0,
    {
        RepoState {
            owner: owner.to_owned(),
            repo: repo.to_owned(),
            working_tree: WorkTree::Missing,
            freshness: Freshness::Unknown,
            run_state: RunState::NotRun,
            divergence: Divergence::Unknown,
            ahead: 0,
            behind: 0,
        }
    }
}

/// Output of `git status --porcelain` made only of newlines and spaces.
pub open spec fn porcelain_clean(out: Seq<u8>) -> bool {
    forall|i: int| 0 <= i < out.len() ==> (#[trigger] out[i] == 10u8 || out[i] == 32u8)
}

pub fn porcelain_is_clean(out: &[u8]) -> (res: bool)
    ensures
        res == porcelain_clean(out@),
{
    let mut i: usize = 0;
    while i < out.len()
        invariant
            i <= out@.len(),
            forall|j: int| 0 <= j < i ==> (#[trigger] out@[j] == 10u8 || out@[j] == 32u8),
        decreases out@.len() - i,
    {
        if out[i] != 10u8 && out[i] != 32u8 {
            return false;
        }
        i = i + 1;
    }
    true
}

/// The working tree, from whether `git status --porcelain` succeeded and
/// what it printed.
pub fn working_tree_of(status_ok: bool, stdout: &[u8]) -> (res: WorkTree)
    ensures
        res == if !status_ok {
            WorkTree::Missing
        } else if porcelain_clean(stdout@) {
            WorkTree::Clean
        } else {
            WorkTree::Dirty
        },
{
    if !status_ok {
        WorkTree::Missing
    } else if porcelain_is_clean(stdout) {
        WorkTree::Clean
    } else {
        WorkTree::Dirty
    }
}

/// Freshness against the cache: a repository gone from the cache is
/// stale, one without a known push time is unknown, otherwise it is stale
/// exactly when it was pushed after the clone was synced. `cached` is the
/// cache's push time for the repository, `None` when the repository is
/// not in the cache; times are nanoseconds since the Unix epoch.
pub fn freshness_of(cached: Option<Option<i128>>, synced_at: i128) -> (res: Freshness)
    ensures
        res == match cached {
            None => Freshness::Stale,
            Some(None) => Freshness::Unknown,
            Some(Some(p)) => if p > synced_at {
                Freshness::Stale
            } else {
                Freshness::Fresh
            },
        },
{
    match cached {
        None => Freshness::Stale,
        Some(None) => Freshness::Unknown,
        Some(Some(p)) => if p > synced_at {
            Freshness::Stale
        } else {
            Freshness::Fresh
        },
    }
}

/// A count as `str::parse::<u32>` reads it.
pub open spec fn parse_u32(s: Seq<char>) -> Option<u32> {
    match parse_usize(s) {
        Some(n) => if n <= u32::MAX {
            Some(n as u32)
        } else {
            None
        },
        None => None,
    }
}

fn parse_u32_exec(s: &Vec<char>) -> (res: Option<u32>)
    ensures
        res == parse_u32(s@),
{
    match parse_usize_exec(s) {
        Some(n) => if n <= 0xffff_ffffusize {
            Some(n as u32)
        } else {
            None
        },
        None => None,
    }
}

/// How many commits the pen branch has over the default branch, from
/// `git rev-list --count`: zero when the command failed or printed
/// something else than a count.
pub open spec fn local_ahead_spec(ok: bool, stdout: Seq<u8>) -> u32 {
    if ok {
        match parse_u32(trim(utf8_lossy(stdout))) {
            Some(n) => n,
            None => 0,
        }
    } else {
        0
    }
}

pub fn local_ahead(ok: bool, stdout: &[u8]) -> (res: u32)
    ensures
        res == local_ahead_spec(ok, stdout@),
{
    if !ok {
        return 0;
    }
    let text = lossy_text(stdout);
    let t = trim_exec(&chars_of(text.as_str()));
    match parse_u32_exec(&t) {
        Some(n) => n,
        None => 0,
    }
}

/// The run state: not run without local commits; otherwise pushed when
/// `git ls-remote --heads origin <branch>` succeeded and printed
/// something.
pub fn run_state_of(local_ahead: u32, ls_ok: bool, ls_nonempty: bool) -> (res: RunState)
    ensures
        res == if local_ahead == 0 {
            RunState::NotRun
        } else if ls_ok && ls_nonempty {
            RunState::RunPushed
        } else {
            RunState::RunLocal
        },
{
    if local_ahead == 0 {
        RunState::NotRun
    } else if ls_ok && ls_nonempty {
        RunState::RunPushed
    } else {
        RunState::RunLocal
    }
}

/// End of the word starting at `i`: the next whitespace or the end.
pub open spec fn word_end(s: Seq<char>, i: int) -> int
    decreases s.len() - i,
{
    if i < 0 || i >= s.len() || is_ws(s[i]) {
        i
    } else {
        word_end(s, i + 1)
    }
}

/// The whitespace-separated words of `s[i..]`, as `split_whitespace`
/// gives them.
pub open spec fn words_from(s: Seq<char>, i: int) -> Seq<Seq<char>>
    decreases s.len() - i,
{
    if i < 0 || i >= s.len() {
        Seq::empty()
    } else if is_ws(s[i]) {
        words_from(s, i + 1)
    } else {
        let e = word_end(s, i);
        if e <= i || e > s.len() {
            Seq::empty()
        } else {
            seq![s.subrange(i, e)] + words_from(s, e)
        }
    }
}

proof fn lemma_word_end(s: Seq<char>, i: int)
    requires
        0 <= i <= s.len(),
    ensures
        i <= word_end(s, i) <= s.len(),
        forall|k: int| i <= k < word_end(s, i) ==> !is_ws(#[trigger] s[k]),
        word_end(s, i) < s.len() ==> is_ws(s[word_end(s, i)]),
    decreases s.len() - i,
{
    if i < s.len() && !is_ws(s[i]) {
        lemma_word_end(s, i + 1);
    }
}

/// The first two words of a text.
fn first_two_words(s: &Vec<char>) -> (res: (Option<Vec<char>>, Option<Vec<char>>))
    ensures
        match res.0 {
            Some(w) => words_from(s@, 0).len() >= 1 && w@ == words_from(s@, 0)[0],
            None => words_from(s@, 0).len() == 0,
        },
        match res.1 {
            Some(w) => words_from(s@, 0).len() >= 2 && w@ == words_from(s@, 0)[1],
            None => words_from(s@, 0).len() < 2,
        },
{
    let mut found: Vec<Vec<char>> = Vec::new();
    let mut i: usize = 0;
    while i < s.len() && found.len() < 2
        invariant
            i <= s@.len(),
            found@.len() <= 2,
            found@.map_values(|w: Vec<char>| w@) + words_from(s@, i as int) == words_from(s@, 0),
        decreases s@.len() - i,
    {
        if is_ws_exec(s[i]) {
            i = i + 1;
        } else {
            let start = i;
            proof {
                lemma_word_end(s@, i as int);
            }
            while i < s.len() && !is_ws_exec(s[i])
                invariant
                    start <= i <= s@.len(),
                    word_end(s@, start as int) == word_end(s@, i as int),
                decreases s@.len() - i,
            {
                i = i + 1;
            }
            let w = crate::text::slice(s, start, i);
            let ghost f0 = found@;
            found.push(w);
            assert(found@.map_values(|w: Vec<char>| w@) =~= f0.map_values(|w: Vec<char>| w@).push(s@.subrange(start as int, i as int)));
            assert(words_from(s@, start as int) == seq![s@.subrange(start as int, i as int)] + words_from(s@, i as int));
        }
    }
    let ghost fv = found@.map_values(|w: Vec<char>| w@);
    let first = if found.len() >= 1 {
        Some(found[0].clone())
    } else {
        None
    };
    let second = if found.len() >= 2 {
        Some(found[1].clone())
    } else {
        None
    };
    proof {
        if found@.len() < 2 {
            assert(words_from(s@, i as int) =~= Seq::empty());
        }
        if found@.len() >= 1 {
            assert(fv[0] == found@[0]@);
        }
        if found@.len() >= 2 {
            assert(fv[1] == found@[1]@);
        }
    }
    (first, second)
}

/// The divergence from `git rev-list --left-right --count
/// <branch>...origin/<branch>`: up to date when that failed; otherwise
/// from its first two words read as counts (zero when absent or not a
/// count).
pub open spec fn divergence_spec(ok: bool, stdout: Seq<u8>) -> (Divergence, u32, u32) {
    if !ok {
        (Divergence::UpToDate, 0, 0)
    } else {
        let ws = words_from(utf8_lossy(stdout), 0);
        let ahead = if ws.len() >= 1 {
            match parse_u32(ws[0]) {
                Some(n) => n,
                None => 0,
            }
        } else {
            0
        };
        let behind = if ws.len() >= 2 {
            match parse_u32(ws[1]) {
                Some(n) => n,
                None => 0,
            }
        } else {
            0
        };
        let d = if ahead == 0 && behind == 0 {
            Divergence::UpToDate
        } else if behind == 0 {
            Divergence::Ahead
        } else if ahead == 0 {
            Divergence::Behind
        } else {
            Divergence::Diverged
        };
        (d, ahead, behind)
    }
}

pub fn divergence_of(ok: bool, stdout: &[u8]) -> (res: (Divergence, u32, u32))
    ensures
        res == divergence_spec(ok, stdout@),
{
    if !ok {
        return (Divergence::UpToDate, 0, 0);
    }
    let text = lossy_text(stdout);
    let (w0, w1) = first_two_words(&chars_of(text.as_str()));
    let ahead: u32 = match w0 {
        Some(w) => match parse_u32_exec(&w) {
            Some(n) => n,
            None => 0,
        },
        None => 0,
    };
    let behind: u32 = match w1 {
        Some(w) => match parse_u32_exec(&w) {
            Some(n) => n,
            None => 0,
        },
        None => 0,
    };
    let d = if ahead == 0 && behind == 0 {
        Divergence::UpToDate
    } else if behind == 0 {
        Divergence::Ahead
    } else if ahead == 0 {
        Divergence::Behind
    } else {
        Divergence::Diverged
    };
    (d, ahead, behind)
}

// ---------------------------------------------------------------------------
// Staging a rewrite over one repository
// ---------------------------------------------------------------------------

/// What loading one tracked file gave.
#[derive(Debug)]
pub enum FileLoad {
    /// The file could not be read.
    Unreadable(String),
    /// Its extension names no format it can be parsed in.
    UnknownFormat,
    /// It does not parse in its format.
    Unparsable(String),
    /// It parses, but its document does not convert to a tree.
    Unconvertible(String),
    /// Its document, as a tree.
    Loaded(Format, Json),
}

/// A tracked file of the repository, by repository-relative path.
#[derive(Debug)]
pub struct TrackedLoad {
    pub relpath: String,
    pub load: FileLoad,
}

/// A file held in memory for the run.
#[derive(Debug)]
pub enum Staged {
    Tree(Format, Json),
    /// A document that did not convert to a tree, with the reason.
    Opaque(String),
}

pub enum LoadV {
    Unreadable(Seq<char>),
    UnknownFormat,
    Unparsable(Seq<char>),
    Unconvertible(Seq<char>),
    Loaded(Format, JVal),
}

pub enum StagedV {
    Tree(Format, JVal),
    Opaque(Seq<char>),
}

pub open spec fn load_view(l: FileLoad) -> LoadV {
    match l {
        FileLoad::Unreadable(e) => LoadV::Unreadable(e@),
        FileLoad::UnknownFormat => LoadV::UnknownFormat,
        FileLoad::Unparsable(e) => LoadV::Unparsable(e@),
        FileLoad::Unconvertible(e) => LoadV::Unconvertible(e@),
        FileLoad::Loaded(f, j) => LoadV::Loaded(f, j@),
    }
}

pub open spec fn files_view(v: Seq<TrackedLoad>) -> Seq<(Seq<char>, LoadV)> {
    v.map_values(|t: TrackedLoad| (t.relpath@, load_view(t.load)))
}

pub open spec fn staged_view(s: Option<Staged>) -> Option<StagedV> {
    match s {
        Some(Staged::Tree(f, j)) => Some(StagedV::Tree(f, j@)),
        Some(Staged::Opaque(e)) => Some(StagedV::Opaque(e@)),
        None => None,
    }
}

pub open spec fn stageds_view(v: Seq<Option<Staged>>) -> Seq<Option<StagedV>> {
    v.map_values(|s: Option<Staged>| staged_view(s))
}

/// Where `x` goes in a list sorted in descending order: before the first
/// smaller element, so that equal elements keep their order.
pub open spec fn desc_pos(s: Seq<Seq<char>>, x: Seq<char>, i: int) -> int
    decreases s.len() - i,
{
    if i < 0 || i >= s.len() {
        s.len() as int
    } else if chars_lt(s[i], x) {
        i
    } else {
        desc_pos(s, x, i + 1)
    }
}

/// `s` sorted in descending order, stably.
pub open spec fn sort_desc(s: Seq<Seq<char>>) -> Seq<Seq<char>>
    decreases s.len(),
{
    if s.len() == 0 {
        s
    } else {
        let r = sort_desc(s.drop_last());
        r.insert(desc_pos(r, s.last(), 0), s.last())
    }
}

proof fn lemma_desc_pos_bound(s: Seq<Seq<char>>, x: Seq<char>, i: int)
    requires
        0 <= i,
    ensures
        0 <= desc_pos(s, x, i) <= s.len(),
    decreases s.len() - i,
{
    if i < s.len() && !chars_lt(s[i], x) {
        lemma_desc_pos_bound(s, x, i + 1);
    }
}

proof fn lemma_sort_desc_len(s: Seq<Seq<char>>)
    ensures
        sort_desc(s).len() == s.len(),
    decreases s.len(),
{
    if s.len() > 0 {
        lemma_sort_desc_len(s.drop_last());
        lemma_desc_pos_bound(sort_desc(s.drop_last()), s.last(), 0);
    }
}

/// Addresses in descending order, so that deleting array elements does not
/// shift the addresses still to come.
fn sorted_desc(addrs: &Vec<String>) -> (res: Vec<String>)
    ensures
        strings_view(res@) == sort_desc(strings_view(addrs@)),
{
    let ghost av = strings_view(addrs@);
    let mut out: Vec<String> = Vec::new();
    let mut n: usize = 0;
    while n < addrs.len()
        invariant
            n <= addrs@.len(),
            av == strings_view(addrs@),
            strings_view(out@) == sort_desc(av.take(n as int)),
        decreases addrs@.len() - n,
    {
        let x = chars_of(addrs[n].as_str());
        let ghost r = strings_view(out@);
        proof {
            assert(av.take(n + 1).drop_last() =~= av.take(n as int));
            assert(av.take(n + 1).last() == x@);
            lemma_desc_pos_bound(r, x@, 0);
        }
        let mut p: usize = 0;
        while p < out.len()
            invariant
                p <= out@.len(),
                r == strings_view(out@),
                desc_pos(r, x@, 0) == desc_pos(r, x@, p as int),
            ensures
                p <= out@.len(),
                r == strings_view(out@),
                desc_pos(r, x@, 0) == desc_pos(r, x@, p as int),
                p == out@.len() || chars_lt(r[p as int], x@),
            decreases out@.len() - p,
        {
            let y = chars_of(out[p].as_str());
            assert(r[p as int] == y@);
            if compare_chars_exec(&y, &x) < 0 {
                break;
            }
            p = p + 1;
        }
        assert(desc_pos(r, x@, p as int) == p);
        let ghost o0 = out@;
        out.insert(p, addrs[n].clone());
        assert(strings_view(out@) =~= r.insert(p as int, x@));
        assert(sort_desc(av.take(n + 1)) == r.insert(desc_pos(r, x@, 0), x@));
        n = n + 1;
    }
    assert(av.take(addrs@.len() as int) =~= av);
    out
}

/// Applies `act` at each address in turn; stops at the first failure with
/// the tree as it stands, the address and the error.
pub open spec fn apply_all(t: JVal, fmt: Format, addrs: Seq<Seq<char>>, act: ActV) -> (JVal, Option<(Seq<char>, ApplyErrV)>)
    decreases addrs.len(),
{
    if addrs.len() == 0 {
        (t, None)
    } else {
        match apply_spec(t, fmt, addrs[0], act) {
            Ok(t2) => apply_all(t2, fmt, addrs.drop_first(), act),
            Err(e) => (t, Some((addrs[0], e))),
        }
    }
}

/// One op on one file: the file's staging afterwards, the addresses
/// rewritten when it was touched, and the failure if any.
pub open spec fn file_step(staged: Option<StagedV>, rel: Seq<char>, load: LoadV, p: PredV, act: ActV) -> (
    Option<StagedV>,
    Option<Seq<Seq<char>>>,
    Option<Seq<char>>,
) {
    let st = match staged {
        Some(x) => Some(x),
        None => match load {
            LoadV::Unconvertible(e) => Some(StagedV::Opaque(e)),
            LoadV::Loaded(f, t) => Some(StagedV::Tree(f, t)),
            _ => None,
        },
    };
    match st {
        None => match load {
            LoadV::Unreadable(e) => (None, None, Some("read "@ + rel + ": "@ + e)),
            LoadV::Unparsable(e) => (None, None, Some("parse "@ + rel + ": "@ + e)),
            _ => (None, None, None),
        },
        Some(StagedV::Opaque(e)) => (st, None, Some("to_json "@ + rel + ": "@ + e)),
        Some(StagedV::Tree(f, t)) => {
            let addrs = match_addresses(t, p);
            if addrs.len() == 0 {
                (st, None, None)
            } else {
                apply_outcome(f, t, rel, sort_desc(addrs), act)
            }
        },
    }
}

/// Applying an op at its sorted addresses in a staged tree.
pub open spec fn apply_outcome(f: Format, t: JVal, rel: Seq<char>, sorted: Seq<Seq<char>>, act: ActV) -> (
    Option<StagedV>,
    Option<Seq<Seq<char>>>,
    Option<Seq<char>>,
) {
    let (t2, fail) = apply_all(t, f, sorted, act);
    match fail {
        Some((a, e)) => (Some(StagedV::Tree(f, t2)), None, Some(rel + " @ "@ + a + ": "@ + apply_error_text(e))),
        None => (Some(StagedV::Tree(f, t2)), Some(sorted), None),
    }
}

/// One op over the first `n` files.
pub struct OpRunV {
    pub staged: Seq<Option<StagedV>>,
    pub files: Seq<Seq<char>>,
    pub addrs: Seq<Seq<char>>,
    pub failure: Option<Seq<char>>,
}

pub open spec fn op_run(staged: Seq<Option<StagedV>>, files: Seq<(Seq<char>, LoadV)>, p: PredV, act: ActV, n: nat) -> OpRunV
    decreases n,
{
    if n == 0 {
        OpRunV { staged, files: Seq::empty(), addrs: Seq::empty(), failure: None }
    } else {
        let r = op_run(staged, files, p, act, (n - 1) as nat);
        if r.failure is Some || n > files.len() {
            r
        } else {
            let k = n - 1;
            let (st, touched, fail) = file_step(r.staged[k], files[k].0, files[k].1, p, act);
            match fail {
                Some(m) => OpRunV { staged: r.staged.update(k, st), files: r.files, addrs: r.addrs, failure: Some(m) },
                None => match touched {
                    Some(a) => OpRunV {
                        staged: r.staged.update(k, st),
                        files: r.files.push(files[k].0),
                        addrs: r.addrs + a,
                        failure: None,
                    },
                    None => OpRunV { staged: r.staged.update(k, st), files: r.files, addrs: r.addrs, failure: None },
                },
            }
        }
    }
}

fn line3(a: &str, b: &String, c: &str, d: &String) -> (res: String)
    ensures
        res@ == a@ + b@ + c@ + d@,
{
    let mut out = chars_of(a);
    append(&mut out, &chars_of(b.as_str()));
    append_str(&mut out, c);
    append(&mut out, &chars_of(d.as_str()));
    string_of(&out)
}

pub open spec fn opt_strs(v: Option<Vec<String>>) -> Option<Seq<Seq<char>>> {
    match v {
        Some(x) => Some(strings_view(x@)),
        None => None,
    }
}

pub open spec fn opt_str(v: Option<String>) -> Option<Seq<char>> {
    match v {
        Some(x) => Some(x@),
        None => None,
    }
}

/// One op on one tracked file, staging the file first if it is not yet.
fn file_step_exec(slot: &mut Option<Staged>, rel: &String, load: &FileLoad, pred: &MatchPredicate, action: &Action) -> (res: (
    Option<Vec<String>>,
    Option<String>,
))
    ensures
        file_step(staged_view(*old(slot)), rel@, load_view(*load), pred@, action@) == (
            staged_view(*final(slot)),
            opt_strs(res.0),
            opt_str(res.1),
        ),
{
    let ghost s0 = staged_view(*slot);
    let mut cur: Option<Staged> = None;
    std::mem::swap(&mut cur, slot);
    if cur.is_none() {
        match load {
            FileLoad::Unconvertible(e) => {
                cur = Some(Staged::Opaque(e.clone()));
            },
            FileLoad::Loaded(f, t) => {
                cur = Some(Staged::Tree(*f, crate::json::json_clone(t)));
            },
            _ => {},
        }
    }
    match cur {
        None => {
            *slot = None;
            match load {
                FileLoad::Unreadable(e) => (None, Some(line3("read ", rel, ": ", e))),
                FileLoad::Unparsable(e) => (None, Some(line3("parse ", rel, ": ", e))),
                _ => (None, None),
            }
        },
        Some(Staged::Opaque(e)) => {
            let msg = line3("to_json ", rel, ": ", &e);
            *slot = Some(Staged::Opaque(e));
            (None, Some(msg))
        },
        Some(Staged::Tree(f, t)) => {
            let mut t = t;
            let ghost t0 = t@;
            let addrs = find_match_addresses(&t, pred);
            if addrs.len() == 0 {
                *slot = Some(Staged::Tree(f, t));
                return (None, None);
            }
            let sorted = sorted_desc(&addrs);
            let ghost sv = strings_view(sorted@);
            let mut i: usize = 0;
            assert(sv.skip(0) =~= sv);
            while i < sorted.len()
                invariant
                    i <= sorted@.len(),
                    sv == strings_view(sorted@),
                    s0 == staged_view(*old(slot)),
                    file_step(s0, rel@, load_view(*load), pred@, action@) == apply_outcome(f, t0, rel@, sv, action@),
                    apply_all(t0, f, sv, action@) == apply_all(t@, f, sv.skip(i as int), action@),
                decreases sorted@.len() - i,
            {
                assert(sv.skip(i as int)[0] == sorted@[i as int]@);
                assert(sv.skip(i as int).drop_first() =~= sv.skip(i + 1));
                match apply_at(&mut t, f, sorted[i].as_str(), action) {
                    Ok(()) => {},
                    Err(e) => {
                        assert(apply_all(t0, f, sv, action@) == (t@, Some((sv[i as int], e@))));
                        let mut out = chars_of(rel.as_str());
                        append_str(&mut out, " @ ");
                        append(&mut out, &chars_of(sorted[i].as_str()));
                        append_str(&mut out, ": ");
                        append(&mut out, &chars_of(e.message().as_str()));
                        *slot = Some(Staged::Tree(f, t));
                        return (None, Some(string_of(&out)));
                    },
                }
                i = i + 1;
            }
            assert(sv.skip(i as int) =~= Seq::<Seq<char>>::empty());
            *slot = Some(Staged::Tree(f, t));
            (Some(sorted), None)
        },
    }
}

proof fn lemma_op_run_stops(staged: Seq<Option<StagedV>>, files: Seq<(Seq<char>, LoadV)>, p: PredV, act: ActV, n: nat, m: nat)
    requires
        n <= m,
        op_run(staged, files, p, act, n).failure is Some,
    ensures
        op_run(staged, files, p, act, m) == op_run(staged, files, p, act, n),
    decreases m - n,
{
    if n < m {
        lemma_op_run_stops(staged, files, p, act, n, (m - 1) as nat);
    }
}

/// One op over all tracked files, in order, stopping at the first failure.
fn op_run_exec(staged: &mut Vec<Option<Staged>>, files: &Vec<TrackedLoad>, pred: &MatchPredicate, action: &Action) -> (res: (
    Vec<String>,
    Vec<String>,
    Option<String>,
))
    requires
        old(staged)@.len() == files@.len(),
    ensures
        final(staged)@.len() == files@.len(),
        ({
            let r = op_run(stageds_view(old(staged)@), files_view(files@), pred@, action@, files@.len() as nat);
            &&& stageds_view(final(staged)@) == r.staged
            &&& strings_view(res.0@) == r.files
            &&& strings_view(res.1@) == r.addrs
            &&& opt_str(res.2) == r.failure
        }),
{
    let ghost s0 = stageds_view(staged@);
    let ghost fv = files_view(files@);
    let mut touched: Vec<String> = Vec::new();
    let mut addrs: Vec<String> = Vec::new();
    assert(strings_view(touched@) =~= Seq::empty());
    assert(strings_view(addrs@) =~= Seq::empty());
    let mut k: usize = 0;
    while k < files.len()
        invariant
            k <= files@.len(),
            staged@.len() == files@.len(),
            s0.len() == files@.len(),
            s0 == stageds_view(old(staged)@),
            fv == files_view(files@),
            op_run(s0, fv, pred@, action@, k as nat) == (OpRunV {
                staged: stageds_view(staged@),
                files: strings_view(touched@),
                addrs: strings_view(addrs@),
                failure: None,
            }),
        decreases files@.len() - k,
    {
        let ghost before = stageds_view(staged@);
        assert(fv[k as int] == (files@[k as int].relpath@, load_view(files@[k as int].load)));
        let mut slot: Option<Staged> = None;
        staged.set_and_swap(k, &mut slot);
        assert(staged_view(slot) == before[k as int]);
        let (hit, fail) = file_step_exec(&mut slot, &files[k].relpath, &files[k].load, pred, action);
        let ghost after_slot = staged_view(slot);
        staged.set_and_swap(k, &mut slot);
        assert(stageds_view(staged@) =~= before.update(k as int, after_slot));
        assert(file_step(before[k as int], fv[k as int].0, fv[k as int].1, pred@, action@) == (
            after_slot,
            opt_strs(hit),
            opt_str(fail),
        ));
        match fail {
            Some(m) => {
                assert(op_run(s0, fv, pred@, action@, (k + 1) as nat) == (OpRunV {
                    staged: stageds_view(staged@),
                    files: strings_view(touched@),
                    addrs: strings_view(addrs@),
                    failure: Some(m@),
                }));
                proof {
                    lemma_op_run_stops(s0, fv, pred@, action@, (k + 1) as nat, files@.len() as nat);
                }
                return (touched, addrs, Some(m));
            },
            None => {
                match hit {
                    Some(a) => {
                        let ghost t0 = strings_view(touched@);
                        let ghost a0 = strings_view(addrs@);
                        touched.push(files[k].relpath.clone());
                        assert(strings_view(touched@) =~= t0.push(files@[k as int].relpath@));
                        let mut j: usize = 0;
                        while j < a.len()
                            invariant
                                j <= a@.len(),
                                strings_view(addrs@) == a0 + strings_view(a@).take(j as int),
                            decreases a@.len() - j,
                        {
                            let ghost o = addrs@;
                            addrs.push(a[j].clone());
                            assert(strings_view(addrs@) =~= strings_view(o).push(a@[j as int]@));
                            assert(strings_view(a@).take(j + 1) =~= strings_view(a@).take(j as int).push(a@[j as int]@));
                            assert(strings_view(addrs@) =~= a0 + strings_view(a@).take(j + 1));
                            j = j + 1;
                        }
                        assert(strings_view(a@).take(a@.len() as int) =~= strings_view(a@));
                    },
                    None => {},
                }
            },
        }
        k = k + 1;
    }
    (touched, addrs, None)
}

// ---------------------------------------------------------------------------
// Staging every op
// ---------------------------------------------------------------------------

/// How one op went on a repository.
#[derive(Debug, Clone)]
pub struct RewriteOpOutcome {
    pub op_id: String,
    pub outcome: OpOutcome,
    pub files: Vec<String>,
    pub addresses: Vec<String>,
}

/// Model of an op's outcome.
pub enum OutcomeV {
    Applied,
    NoTargets,
    Failed(Seq<char>),
    ValidationFailed(Seq<Seq<char>>),
}

pub open spec fn outcome_view(o: OpOutcome) -> OutcomeV {
    match o {
        OpOutcome::Applied => OutcomeV::Applied,
        OpOutcome::NoTargets => OutcomeV::NoTargets,
        OpOutcome::Failed { reason } => OutcomeV::Failed(reason@),
        OpOutcome::ValidationFailed { errors } => OutcomeV::ValidationFailed(strings_view(errors@)),
    }
}

pub type RecV = (Seq<char>, OutcomeV, Seq<Seq<char>>, Seq<Seq<char>>);

pub open spec fn rec_view(o: RewriteOpOutcome) -> RecV {
    (o.op_id@, outcome_view(o.outcome), strings_view(o.files@), strings_view(o.addresses@))
}

pub open spec fn recs_view(v: Seq<RewriteOpOutcome>) -> Seq<RecV> {
    v.map_values(|o: RewriteOpOutcome| rec_view(o))
}

/// The state of a staging run after some ops.
pub struct StageV {
    pub staged: Seq<Option<StagedV>>,
    pub recs: Seq<RecV>,
    pub skipped: Seq<bool>,
    pub trigger: Option<Seq<char>>,
}

/// The parsed predicate of an op's selector.
pub open spec fn op_pred(op: RewriteOp) -> PredV {
    parse_predicate(selector_text(op))->Ok_0
}

/// The first `k` ops staged over the files: an op already applied here
/// is skipped (and reported as having no targets) unless forced; the first
/// failing op ends the run and triggers the rollback.
pub open spec fn stage_spec(files: Seq<(Seq<char>, LoadV)>, ops: Seq<&RewriteOp>, prior: Seq<Seq<char>>, force: bool, k: nat) -> StageV
    decreases k,
{
    if k == 0 || k > ops.len() {
        StageV {
            staged: Seq::new(files.len(), |i: int| None::<StagedV>),
            recs: Seq::empty(),
            skipped: Seq::empty(),
            trigger: None,
        }
    } else {
        let r = stage_spec(files, ops, prior, force, (k - 1) as nat);
        let op = *ops[k - 1];
        if r.trigger is Some {
            r
        } else if !force && prior.contains(op.id@) {
            StageV {
                staged: r.staged,
                recs: r.recs.push((op.id@, OutcomeV::NoTargets, Seq::empty(), Seq::empty())),
                skipped: r.skipped.push(true),
                trigger: None,
            }
        } else {
            let run = op_run(r.staged, files, op_pred(op), op.action@, files.len());
            match run.failure {
                Some(m) => StageV {
                    staged: run.staged,
                    recs: r.recs.push((op.id@, OutcomeV::Failed(m), run.files, run.addrs)),
                    skipped: r.skipped.push(false),
                    trigger: Some(op.id@),
                },
                None => StageV {
                    staged: run.staged,
                    recs: r.recs.push(
                        (
                            op.id@,
                            if run.files.len() == 0 {
                                OutcomeV::NoTargets
                            } else {
                                OutcomeV::Applied
                            },
                            run.files,
                            run.addrs,
                        ),
                    ),
                    skipped: r.skipped.push(false),
                    trigger: None,
                },
            }
        }
    }
}

/// What staging the ops over a repository's files gave.
#[derive(Debug)]
pub struct StageOutcome {
    /// Per tracked file, what is held in memory for it.
    pub staged: Vec<Option<Staged>>,
    pub ops: Vec<RewriteOpOutcome>,
    /// Per op outcome, whether the op was skipped as already applied.
    pub skipped: Vec<bool>,
    /// The op whose failure calls for a rollback.
    pub rollback_trigger: Option<String>,
}

proof fn lemma_stage_stops(files: Seq<(Seq<char>, LoadV)>, ops: Seq<&RewriteOp>, prior: Seq<Seq<char>>, force: bool, n: nat, m: nat)
    requires
        n <= m <= ops.len(),
        stage_spec(files, ops, prior, force, n).trigger is Some,
    ensures
        stage_spec(files, ops, prior, force, m) == stage_spec(files, ops, prior, force, n),
    decreases m - n,
{
    if n < m {
        lemma_stage_stops(files, ops, prior, force, n, (m - 1) as nat);
    }
}

fn contains_str(v: &Vec<String>, x: &String) -> (res: bool)
    ensures
        res == strings_view(v@).contains(x@),
{
    let mut i: usize = 0;
    while i < v.len()
        invariant
            i <= v@.len(),
            forall|j: int| 0 <= j < i ==> v@[j]@ != x@,
        decreases v@.len() - i,
    {
        if v[i] == *x {
            assert(strings_view(v@)[i as int] == x@);
            return true;
        }
        i = i + 1;
    }
    assert forall|j: int| 0 <= j < strings_view(v@).len() implies strings_view(v@)[j] != x@ by {
        assert(strings_view(v@)[j] == v@[j]@);
    }
    false
}

/// The outcome an op run gives.
pub open spec fn run_outcome(run: OpRunV) -> OutcomeV {
    match run.failure {
        Some(m) => OutcomeV::Failed(m),
        None => if run.files.len() == 0 {
            OutcomeV::NoTargets
        } else {
            OutcomeV::Applied
        },
    }
}

/// Runs one op that is not skipped over every file.
fn run_op(staged: &mut Vec<Option<Staged>>, files: &Vec<TrackedLoad>, op: &RewriteOp) -> (res: (RewriteOpOutcome, bool))
    requires
        old(staged)@.len() == files@.len(),
        parse_predicate(selector_text(*op)) is Ok,
    ensures
        final(staged)@.len() == files@.len(),
        ({
            let run = op_run(stageds_view(old(staged)@), files_view(files@), op_pred(*op), op.action@, files@.len() as nat);
            &&& stageds_view(final(staged)@) == run.staged
            &&& res.1 == run.failure is Some
            &&& rec_view(res.0) == (op.id@, run_outcome(run), run.files, run.addrs)
        }),
{
    let text = match &op.selector {
        Selector::Predicate { predicate } => predicate,
    };
    let pred = match MatchPredicate::parse(text.as_str()) {
        Ok(p) => p,
        Err(_) => {
            assert(false);
            return (RewriteOpOutcome { op_id: op.id.clone(), outcome: OpOutcome::NoTargets, files: Vec::new(), addresses: Vec::new() }, false);
        },
    };
    let (touched, addrs, fail) = op_run_exec(staged, files, &pred, &op.action);
    match fail {
        Some(m) => (RewriteOpOutcome { op_id: op.id.clone(), outcome: OpOutcome::Failed { reason: m }, files: touched, addresses: addrs }, true),
        None => {
            let outcome = if touched.len() == 0 {
                OpOutcome::NoTargets
            } else {
                OpOutcome::Applied
            };
            (RewriteOpOutcome { op_id: op.id.clone(), outcome, files: touched, addresses: addrs }, false)
        },
    }
}

/// Stages the in-scope ops over a repository's tracked files. `prior` is
/// the ops already applied to the repository; every op's selector must
/// parse (a rewrite checks them all before touching any repository).
pub fn stage_ops(files: &Vec<TrackedLoad>, ops: &Vec<&RewriteOp>, prior: &Vec<String>, force: bool) -> (res: StageOutcome)
    requires
        forall|i: int| 0 <= i < ops@.len() ==> parse_predicate(selector_text(*#[trigger] ops@[i])) is Ok,
    ensures
        ({
            let r = stage_spec(files_view(files@), ops@, strings_view(prior@), force, ops@.len() as nat);
            &&& stageds_view(res.staged@) == r.staged
            &&& recs_view(res.ops@) == r.recs
            &&& res.skipped@ == r.skipped
            &&& opt_str(res.rollback_trigger) == r.trigger
        }),
{
    let ghost fv = files_view(files@);
    let ghost pv = strings_view(prior@);
    let mut staged: Vec<Option<Staged>> = Vec::new();
    let mut i: usize = 0;
    while i < files.len()
        invariant
            i <= files@.len(),
            staged@.len() == i,
            forall|j: int| 0 <= j < i ==> staged@[j] is None,
        decreases files@.len() - i,
    {
        staged.push(None);
        i = i + 1;
    }
    assert(stageds_view(staged@) =~= Seq::new(fv.len(), |i: int| None::<StagedV>));
    let mut outs: Vec<RewriteOpOutcome> = Vec::new();
    let mut skipped: Vec<bool> = Vec::new();
    assert(recs_view(outs@) =~= Seq::empty());
    assert(skipped@ =~= Seq::empty());
    let mut k: usize = 0;
    while k < ops.len()
        invariant
            k <= ops@.len(),
            fv == files_view(files@),
            pv == strings_view(prior@),
            staged@.len() == files@.len(),
            forall|i: int| 0 <= i < ops@.len() ==> parse_predicate(selector_text(*#[trigger] ops@[i])) is Ok,
            stage_spec(fv, ops@, pv, force, k as nat) == (StageV {
                staged: stageds_view(staged@),
                recs: recs_view(outs@),
                skipped: skipped@,
                trigger: None,
            }),
        decreases ops@.len() - k,
    {
        let op = ops[k];
        let ghost r0 = recs_view(outs@);
        if !force && contains_str(prior, &op.id) {
            let rec = RewriteOpOutcome { op_id: op.id.clone(), outcome: OpOutcome::NoTargets, files: Vec::new(), addresses: Vec::new() };
            assert(strings_view(rec.files@) =~= Seq::empty());
            assert(strings_view(rec.addresses@) =~= Seq::empty());
            outs.push(rec);
            skipped.push(true);
            assert(recs_view(outs@) =~= r0.push((op.id@, OutcomeV::NoTargets, Seq::empty(), Seq::empty())));
        } else {
            assert(parse_predicate(selector_text(*ops@[k as int])) is Ok);
            let (rec, failed) = run_op(&mut staged, files, op);
            outs.push(rec);
            skipped.push(false);
            let ghost rn = recs_view(outs@);
            assert(rn =~= r0.push(rn.last()));
            if failed {
                proof {
                    lemma_stage_stops(fv, ops@, pv, force, (k + 1) as nat, ops@.len() as nat);
                }
                return StageOutcome { staged, ops: outs, skipped, rollback_trigger: Some(op.id.clone()) };
            }
        }
        k = k + 1;
    }
    StageOutcome { staged, ops: outs, skipped, rollback_trigger: None }
}

// ---------------------------------------------------------------------------
// After staging: validation, ledger and run log
// ---------------------------------------------------------------------------

/// The op to blame when the staged file at `path` fails validation: the
/// last applied op that touched it, if any.
pub open spec fn blame_index(recs: Seq<RecV>, path: Seq<char>, n: nat) -> Option<nat>
    decreases n,
{
    if n == 0 || n > recs.len() {
        None
    } else if recs[n - 1].1 is Applied && recs[n - 1].2.contains(path) {
        Some((n - 1) as nat)
    } else {
        blame_index(recs, path, (n - 1) as nat)
    }
}

/// Records that the staged file at `path` failed validation with
/// `errors`: the blamed op's outcome becomes a validation failure and its
/// id is the rollback trigger; with no op to blame the trigger is
/// `validation@<path>`.
pub fn blame_validation(ops: &mut Vec<RewriteOpOutcome>, path: &String, errors: Vec<String>) -> (res: String)
    ensures
        final(ops)@.len() == old(ops)@.len(),
        match blame_index(recs_view(old(ops)@), path@, old(ops)@.len() as nat) {
            Some(i) => res@ == old(ops)@[i as int].op_id@ && recs_view(final(ops)@) == recs_view(old(ops)@).update(
                i as int,
                (
                    old(ops)@[i as int].op_id@,
                    OutcomeV::ValidationFailed(strings_view(errors@)),
                    strings_view(old(ops)@[i as int].files@),
                    strings_view(old(ops)@[i as int].addresses@),
                ),
            ),
            None => res@ == "validation@"@ + path@ && final(ops)@ == old(ops)@,
        },
{
    let ghost rv = recs_view(ops@);
    let mut n: usize = ops.len();
    while n > 0
        invariant
            n <= ops@.len(),
            ops@ == old(ops)@,
            rv == recs_view(ops@),
            blame_index(rv, path@, ops@.len() as nat) == blame_index(rv, path@, n as nat),
        decreases n,
    {
        let i = n - 1;
        assert(rv[i as int] == rec_view(ops@[i as int]));
        let applied = match ops[i].outcome {
            OpOutcome::Applied => true,
            _ => false,
        };
        if applied && contains_str(&ops[i].files, path) {
            let mut rec = ops.remove(i);
            rec.outcome = OpOutcome::ValidationFailed { errors };
            let id = rec.op_id.clone();
            let ghost rr = rec_view(rec);
            ops.insert(i, rec);
            assert(recs_view(ops@) =~= rv.update(i as int, rr));
            return id;
        }
        n = n - 1;
    }
    let mut out = chars_of("validation@");
    append(&mut out, &chars_of(path.as_str()));
    string_of(&out)
}

/// When an op was applied to a repository (nanoseconds since the epoch).
#[derive(Debug, Clone)]
pub struct AppliedRecord {
    pub applied_at: i128,
}

/// An op that failed on a repository without rolling back.
#[derive(Debug, Clone)]
pub struct FailedRecord {
    pub failed_at: i128,
    pub reason: String,
}

/// Which ops have applied to a repository, and which failed for good; each
/// keyed by op id, in id order.
#[derive(Debug, Clone)]
pub struct RepoOpsState {
    pub ops: Vec<(String, AppliedRecord)>,
    pub failed: Vec<(String, FailedRecord)>,
}

/// How one rewrite attempt on a repository ended, for the run log.
#[derive(Debug, Clone, Copy, PartialEq, Eq, Structural)]
pub enum RunOutcome {
    Applied,
    NoTargets,
    /// Failed and rolled back; the working tree is untouched.
    RolledBack,
    /// Failed without rolling back; the working tree may hold partial
    /// changes.
    FailedNoRollback,
    /// Skipped as already applied.
    Skipped,
}

/// One run-log entry, without its time stamp.
#[derive(Debug, Clone)]
pub struct RunLogItem {
    pub op_id: String,
    pub outcome: RunOutcome,
    pub files: Vec<String>,
    pub addresses: Vec<String>,
    pub reason: Option<String>,
}

impl View for AppliedRecord {
    type V = i128;

    open spec fn view(&self) -> i128 {
        self.applied_at
    }
}

impl View for FailedRecord {
    type V = (i128, Seq<char>);

    open spec fn view(&self) -> (i128, Seq<char>) {
        (self.failed_at, self.reason@)
    }
}

/// A map kept as a key-sorted list, by its entries' views.
pub open spec fn kv_view<V: View>(m: Seq<(String, V)>) -> Seq<(Seq<char>, V::V)> {
    m.map_values(|e: (String, V)| (e.0@, e.1@))
}

pub open spec fn key_pos<W>(m: Seq<(Seq<char>, W)>, k: Seq<char>, i: int) -> Option<int>
    decreases m.len() - i,
{
    if i < 0 || i >= m.len() {
        None
    } else if m[i].0 == k {
        Some(i)
    } else {
        key_pos(m, k, i + 1)
    }
}

pub open spec fn ins_pos<W>(m: Seq<(Seq<char>, W)>, k: Seq<char>, i: int) -> int
    decreases m.len() - i,
{
    if i < 0 || i >= m.len() {
        m.len() as int
    } else if chars_lt(k, m[i].0) {
        i
    } else {
        ins_pos(m, k, i + 1)
    }
}

/// A sorted map with `k` bound to `v`, as `BTreeMap::insert` leaves it.
pub open spec fn kv_put<W>(m: Seq<(Seq<char>, W)>, k: Seq<char>, v: W) -> Seq<(Seq<char>, W)> {
    match key_pos(m, k, 0) {
        Some(i) => m.update(i, (k, v)),
        None => m.insert(ins_pos(m, k, 0), (k, v)),
    }
}

/// A sorted map without `k`.
pub open spec fn kv_del<W>(m: Seq<(Seq<char>, W)>, k: Seq<char>) -> Seq<(Seq<char>, W)> {
    match key_pos(m, k, 0) {
        Some(i) => m.remove(i),
        None => m,
    }
}

pub open spec fn kv_has<W>(m: Seq<(Seq<char>, W)>, k: Seq<char>) -> bool {
    key_pos(m, k, 0) is Some
}

fn find_pos<V: View>(m: &Vec<(String, V)>, k: &String) -> (res: Option<usize>)
    ensures
        match res {
            Some(i) => key_pos(kv_view(m@), k@, 0) == Some(i as int) && i < m@.len(),
            None => key_pos(kv_view(m@), k@, 0) is None,
        },
{
    let ghost mv = kv_view(m@);
    let mut i: usize = 0;
    while i < m.len()
        invariant
            i <= m@.len(),
            mv == kv_view(m@),
            key_pos(mv, k@, 0) == key_pos(mv, k@, i as int),
        decreases m@.len() - i,
    {
        assert(mv[i as int].0 == m@[i as int].0@);
        if m[i].0 == *k {
            return Some(i);
        }
        i = i + 1;
    }
    None
}

pub(crate) fn kv_put_exec<V: View>(m: &mut Vec<(String, V)>, k: String, v: V)
    ensures
        kv_view(final(m)@) == kv_put(kv_view(old(m)@), k@, v@),
{
    let ghost m0 = kv_view(m@);
    let ghost kk = k@;
    let ghost vv = v@;
    match find_pos(m, &k) {
        Some(i) => {
            let _old = m.remove(i);
            m.insert(i, (k, v));
            assert(kv_view(m@) =~= m0.update(i as int, (kk, vv)));
        },
        None => {
            let kc = chars_of(k.as_str());
            let mut p: usize = 0;
            while p < m.len()
                invariant
                    p <= m@.len(),
                    kc@ == kk,
                    m0 == kv_view(m@),
                    ins_pos(m0, kk, 0) == ins_pos(m0, kk, p as int),
                ensures
                    p <= m@.len(),
                    m0 == kv_view(m@),
                    ins_pos(m0, kk, 0) == ins_pos(m0, kk, p as int),
                    p == m@.len() || chars_lt(kk, m0[p as int].0),
                decreases m@.len() - p,
            {
                assert(m0[p as int].0 == m@[p as int].0@);
                if compare_chars_exec(&kc, &chars_of(m[p].0.as_str())) < 0 {
                    break;
                }
                p = p + 1;
            }
            assert(ins_pos(m0, kk, p as int) == p);
            m.insert(p, (k, v));
            assert(kv_view(m@) =~= m0.insert(p as int, (kk, vv)));
        },
    }
}

fn kv_del_exec<V: View>(m: &mut Vec<(String, V)>, k: &String)
    ensures
        kv_view(final(m)@) == kv_del(kv_view(old(m)@), k@),
{
    let ghost m0 = kv_view(m@);
    match find_pos(m, k) {
        Some(i) => {
            m.remove(i);
            assert(kv_view(m@) =~= m0.remove(i as int));
        },
        None => {},
    }
}

/// Lines joined with newlines.
pub open spec fn joined(s: Seq<Seq<char>>) -> Seq<char>
    decreases s.len(),
{
    if s.len() == 0 {
        Seq::empty()
    } else if s.len() == 1 {
        s[0]
    } else {
        joined(s.drop_last()) + seq!['\n'] + s.last()
    }
}

fn join_lines(v: &Vec<String>) -> (res: String)
    ensures
        res@ == joined(strings_view(v@)),
{
    let ghost sv = strings_view(v@);
    let mut out: Vec<char> = Vec::new();
    let mut i: usize = 0;
    while i < v.len()
        invariant
            i <= v@.len(),
            sv == strings_view(v@),
            out@ == joined(sv.take(i as int)),
        decreases v@.len() - i,
    {
        if i > 0 {
            out.push('\n');
        }
        append(&mut out, &chars_of(v[i].as_str()));
        assert(sv.take(i + 1).drop_last() =~= sv.take(i as int));
        i = i + 1;
    }
    assert(sv.take(v@.len() as int) =~= sv);
    string_of(&out)
}

pub type LedgerV = (Seq<(Seq<char>, i128)>, Seq<(Seq<char>, (i128, Seq<char>))>);

pub open spec fn ledger_view(l: RepoOpsState) -> LedgerV {
    (kv_view(l.ops@), kv_view(l.failed@))
}

/// The ledger after one op outcome: an applied op is recorded and no
/// longer failed; without rollback a failure is recorded with its reason.
pub open spec fn ledger_step(l: LedgerV, r: RecV, now: i128, no_rollback: bool) -> LedgerV {
    match r.1 {
        OutcomeV::Applied => (kv_put(l.0, r.0, now), kv_del(l.1, r.0)),
        OutcomeV::NoTargets => l,
        OutcomeV::Failed(m) => if no_rollback {
            (l.0, kv_put(l.1, r.0, (now, m)))
        } else {
            l
        },
        OutcomeV::ValidationFailed(errs) => if no_rollback {
            (l.0, kv_put(l.1, r.0, (now, joined(errs))))
        } else {
            l
        },
    }
}

pub open spec fn ledger_after(l: LedgerV, recs: Seq<RecV>, now: i128, no_rollback: bool, n: nat) -> LedgerV
    decreases n,
{
    if n == 0 || n > recs.len() {
        l
    } else {
        ledger_step(ledger_after(l, recs, now, no_rollback, (n - 1) as nat), recs[n - 1], now, no_rollback)
    }
}

pub type LogV = (Seq<char>, RunOutcome, Seq<Seq<char>>, Seq<Seq<char>>, Option<Seq<char>>);

pub open spec fn item_view(i: RunLogItem) -> LogV {
    (i.op_id@, i.outcome, strings_view(i.files@), strings_view(i.addresses@), opt_str(i.reason))
}

pub open spec fn items_view(v: Seq<RunLogItem>) -> Seq<LogV> {
    v.map_values(|i: RunLogItem| item_view(i))
}

/// The run-log entries a committed repository records: one per applied op
/// and one per op with no targets.
pub open spec fn commit_log(recs: Seq<RecV>, n: nat) -> Seq<LogV>
    decreases n,
{
    if n == 0 || n > recs.len() {
        Seq::empty()
    } else {
        let rest = commit_log(recs, (n - 1) as nat);
        let r = recs[n - 1];
        match r.1 {
            OutcomeV::Applied => rest.push((r.0, RunOutcome::Applied, r.2, r.3, None)),
            OutcomeV::NoTargets => rest.push((r.0, RunOutcome::NoTargets, Seq::empty(), Seq::empty(), None)),
            _ => rest,
        }
    }
}

pub fn clone_strings(v: &Vec<String>) -> (res: Vec<String>)
    ensures
        res@ == v@,
{
    let mut out: Vec<String> = Vec::new();
    let mut i: usize = 0;
    while i < v.len()
        invariant
            i <= v@.len(),
            out@ == v@.take(i as int),
        decreases v@.len() - i,
    {
        out.push(v[i].clone());
        assert(out@ =~= v@.take(i + 1));
        i = i + 1;
    }
    assert(v@.take(v@.len() as int) =~= v@);
    out
}

fn clone_ledger(l: &RepoOpsState) -> (res: RepoOpsState)
    ensures
        ledger_view(res) == ledger_view(*l),
{
    let mut ops: Vec<(String, AppliedRecord)> = Vec::new();
    let mut i: usize = 0;
    while i < l.ops.len()
        invariant
            i <= l.ops@.len(),
            kv_view(ops@) == kv_view(l.ops@).take(i as int),
        decreases l.ops@.len() - i,
    {
        let ghost o0 = ops@;
        let e = (l.ops[i].0.clone(), AppliedRecord { applied_at: l.ops[i].1.applied_at });
        assert((e.0@, e.1@) == (l.ops@[i as int].0@, l.ops@[i as int].1@));
        ops.push(e);
        assert(kv_view(ops@) =~= kv_view(o0).push((e.0@, e.1@)));
        assert(kv_view(l.ops@).take(i + 1) =~= kv_view(l.ops@).take(i as int).push((l.ops@[i as int].0@, l.ops@[i as int].1@)));
        assert(kv_view(ops@) =~= kv_view(l.ops@).take(i + 1));
        i = i + 1;
    }
    let mut failed: Vec<(String, FailedRecord)> = Vec::new();
    let mut j: usize = 0;
    while j < l.failed.len()
        invariant
            j <= l.failed@.len(),
            kv_view(failed@) == kv_view(l.failed@).take(j as int),
        decreases l.failed@.len() - j,
    {
        let ghost f0 = failed@;
        let e = (l.failed[j].0.clone(), FailedRecord { failed_at: l.failed[j].1.failed_at, reason: l.failed[j].1.reason.clone() });
        assert((e.0@, e.1@) == (l.failed@[j as int].0@, l.failed@[j as int].1@));
        failed.push(e);
        assert(kv_view(failed@) =~= kv_view(f0).push((e.0@, e.1@)));
        assert(kv_view(l.failed@).take(j + 1) =~= kv_view(l.failed@).take(j as int).push((l.failed@[j as int].0@, l.failed@[j as int].1@)));
        assert(kv_view(failed@) =~= kv_view(l.failed@).take(j + 1));
        j = j + 1;
    }
    assert(kv_view(l.ops@).take(l.ops@.len() as int) =~= kv_view(l.ops@));
    assert(kv_view(l.failed@).take(l.failed@.len() as int) =~= kv_view(l.failed@));
    RepoOpsState { ops, failed }
}

/// How one staged file fared when checked against its schema.
pub enum FileCheckOutcome {
    /// The file validates.
    Valid,
    /// The validator reported these errors (none means valid).
    Invalid(Vec<String>),
    /// The validator itself failed with this reason.
    ValidatorFailed(String),
    /// The staged file could not be read as a tree, for this reason.
    NotTree(String),
}

/// The rollback trigger a file's check sets, if any: a validator failure
/// names `validator@<path>`, an unreadable file `to_json <path>`, and
/// errors blame the op that last touched the file. Checking stops at the
/// first file that sets one.
pub fn validation_step(ops: &mut Vec<RewriteOpOutcome>, path: &String, outcome: FileCheckOutcome) -> (res: Option<String>)
    ensures
        match outcome {
            FileCheckOutcome::Valid => res is None && final(ops)@ == old(ops)@,
            FileCheckOutcome::Invalid(errors) => if errors@.len() == 0 {
                res is None && final(ops)@ == old(ops)@
            } else {
                res is Some && final(ops)@.len() == old(ops)@.len() && match blame_index(
                    recs_view(old(ops)@),
                    path@,
                    old(ops)@.len() as nat,
                ) {
                    Some(i) => res->0@ == old(ops)@[i as int].op_id@ && recs_view(final(ops)@) == recs_view(
                        old(ops)@,
                    ).update(
                        i as int,
                        (
                            old(ops)@[i as int].op_id@,
                            OutcomeV::ValidationFailed(strings_view(errors@)),
                            strings_view(old(ops)@[i as int].files@),
                            strings_view(old(ops)@[i as int].addresses@),
                        ),
                    ),
                    None => res->0@ == "validation@"@ + path@ && final(ops)@ == old(ops)@,
                }
            },
            FileCheckOutcome::ValidatorFailed(e) => res matches Some(t) && t@ == "validator@"@ + path@ + ": "@ + e@
                && final(ops)@ == old(ops)@,
            FileCheckOutcome::NotTree(r) => res matches Some(t) && t@ == "to_json "@ + path@ + ": "@ + r@
                && final(ops)@ == old(ops)@,
        },
{
    match outcome {
        FileCheckOutcome::Valid => None,
        FileCheckOutcome::Invalid(errors) => {
            if errors.len() == 0 {
                None
            } else {
                Some(blame_validation(ops, path, errors))
            }
        },
        FileCheckOutcome::ValidatorFailed(e) => {
            let mut out: Vec<char> = Vec::new();
            crate::text::append_str(&mut out, "validator@");
            crate::text::append(&mut out, &chars_of(path.as_str()));
            crate::text::append_str(&mut out, ": ");
            crate::text::append(&mut out, &chars_of(e.as_str()));
            Some(crate::text::string_of(&out))
        },
        FileCheckOutcome::NotTree(r) => {
            let mut out: Vec<char> = Vec::new();
            crate::text::append_str(&mut out, "to_json ");
            crate::text::append(&mut out, &chars_of(path.as_str()));
            crate::text::append_str(&mut out, ": ");
            crate::text::append(&mut out, &chars_of(r.as_str()));
            Some(crate::text::string_of(&out))
        },
    }
}

/// What a repository rewrite does with its staged files once every op has
/// been tried.
#[derive(Debug, Clone, Copy, PartialEq, Eq, Structural)]
pub enum WriteDecision {
    /// Nothing is written: a dry run or a diff-only run.
    Preview,
    /// Every op went through: the files are written.
    Commit,
    /// Something failed but `--no-rollback` keeps what succeeded.
    CommitPartial,
    /// Something failed: nothing is written.
    RollBack,
}

/// Whether a rewrite writes, and how: a dry or diff run never writes; a run
/// with no rollback trigger commits; one with a trigger rolls back unless
/// rollback is switched off, when it commits what it has.
pub open spec fn write_decision_spec(dry_run: bool, diff: bool, triggered: bool, no_rollback: bool) -> WriteDecision {
    if dry_run || diff {
        WriteDecision::Preview
    } else if !triggered {
        WriteDecision::Commit
    } else if no_rollback {
        WriteDecision::CommitPartial
    } else {
        WriteDecision::RollBack
    }
}

/// The write decision of a repository rewrite.
pub fn write_decision(dry_run: bool, diff: bool, triggered: bool, no_rollback: bool) -> (res: WriteDecision)
    ensures
        res == write_decision_spec(dry_run, diff, triggered, no_rollback),
{
    if dry_run || diff {
        WriteDecision::Preview
    } else if !triggered {
        WriteDecision::Commit
    } else if no_rollback {
        WriteDecision::CommitPartial
    } else {
        WriteDecision::RollBack
    }
}

impl WriteDecision {
    /// Whether the staged files are written.
    pub fn writes_files(&self) -> (res: bool)
        ensures
            res == (*self is Commit || *self is CommitPartial),
    {
        match self {
            WriteDecision::Commit | WriteDecision::CommitPartial => true,
            _ => false,
        }
    }

    /// Whether the rewrite is reported as committed: only a full commit is.
    pub fn committed(&self) -> (res: bool)
        ensures
            res == (*self is Commit),
    {
        match self {
            WriteDecision::Commit => true,
            _ => false,
        }
    }
}

/// What a repository's ledger becomes when its rewrite is written, and the
/// run-log entries to append; `now` stamps the new records.
pub fn ledger_after_run(prior: &RepoOpsState, outcomes: &Vec<RewriteOpOutcome>, now: i128, no_rollback: bool) -> (res: (
    RepoOpsState,
    Vec<RunLogItem>,
))
    ensures
        ledger_view(res.0) == ledger_after(
            ledger_view(*prior),
            recs_view(outcomes@),
            now,
            no_rollback,
            outcomes@.len() as nat,
        ),
        items_view(res.1@) == commit_log(recs_view(outcomes@), outcomes@.len() as nat),
{
    let ghost rv = recs_view(outcomes@);
    let mut state = clone_ledger(prior);
    let mut log: Vec<RunLogItem> = Vec::new();
    let mut i: usize = 0;
    while i < outcomes.len()
        invariant
            i <= outcomes@.len(),
            rv == recs_view(outcomes@),
            ledger_view(state) == ledger_after(ledger_view(*prior), rv, now, no_rollback, i as nat),
            items_view(log@) == commit_log(rv, i as nat),
        decreases outcomes@.len() - i,
    {
        let o = &outcomes[i];
        assert(rv[i as int] == rec_view(*o));
        let ghost l0 = items_view(log@);
        match &o.outcome {
            OpOutcome::Applied => {
                kv_put_exec(&mut state.ops, o.op_id.clone(), AppliedRecord { applied_at: now });
                kv_del_exec(&mut state.failed, &o.op_id);
                log.push(RunLogItem {
                    op_id: o.op_id.clone(),
                    outcome: RunOutcome::Applied,
                    files: clone_strings(&o.files),
                    addresses: clone_strings(&o.addresses),
                    reason: None,
                });
                assert(items_view(log@) =~= l0.push(item_view(log@.last())));
            },
            OpOutcome::NoTargets => {
                let item = RunLogItem {
                    op_id: o.op_id.clone(),
                    outcome: RunOutcome::NoTargets,
                    files: Vec::new(),
                    addresses: Vec::new(),
                    reason: None,
                };
                assert(strings_view(item.files@) =~= Seq::empty());
                assert(strings_view(item.addresses@) =~= Seq::empty());
                log.push(item);
                assert(items_view(log@) =~= l0.push(item_view(log@.last())));
            },
            OpOutcome::Failed { reason } => {
                if no_rollback {
                    kv_put_exec(&mut state.failed, o.op_id.clone(), FailedRecord { failed_at: now, reason: reason.clone() });
                }
            },
            OpOutcome::ValidationFailed { errors } => {
                if no_rollback {
                    let reason = join_lines(errors);
                    kv_put_exec(&mut state.failed, o.op_id.clone(), FailedRecord { failed_at: now, reason });
                }
            },
        }
        i = i + 1;
    }
    (state, log)
}

pub open spec fn failure_outcome(no_rollback: bool) -> RunOutcome {
    if no_rollback {
        RunOutcome::FailedNoRollback
    } else {
        RunOutcome::RolledBack
    }
}

/// The run-log entries staging records as it goes: each op skipped as
/// already applied, and the op that failed.
pub open spec fn staging_log(recs: Seq<RecV>, skipped: Seq<bool>, no_rollback: bool, n: nat) -> Seq<LogV>
    decreases n,
{
    if n == 0 || n > recs.len() || n > skipped.len() {
        Seq::empty()
    } else {
        let rest = staging_log(recs, skipped, no_rollback, (n - 1) as nat);
        let r = recs[n - 1];
        if skipped[n - 1] {
            rest.push((r.0, RunOutcome::Skipped, Seq::empty(), Seq::empty(), Some("already applied; pass --force to re-run"@)))
        } else {
            match r.1 {
                OutcomeV::Failed(m) => rest.push((r.0, failure_outcome(no_rollback), r.2, r.3, Some(m))),
                _ => rest,
            }
        }
    }
}

/// The run-log entries of a staging run, in the order they arise.
pub fn staging_log_items(stage: &StageOutcome, no_rollback: bool) -> (res: Vec<RunLogItem>)
    requires
        stage.skipped@.len() == stage.ops@.len(),
    ensures
        items_view(res@) == staging_log(recs_view(stage.ops@), stage.skipped@, no_rollback, stage.ops@.len() as nat),
{
    let ghost rv = recs_view(stage.ops@);
    let mut out: Vec<RunLogItem> = Vec::new();
    let mut i: usize = 0;
    while i < stage.ops.len()
        invariant
            i <= stage.ops@.len(),
            stage.skipped@.len() == stage.ops@.len(),
            rv == recs_view(stage.ops@),
            items_view(out@) == staging_log(rv, stage.skipped@, no_rollback, i as nat),
        decreases stage.ops@.len() - i,
    {
        let o = &stage.ops[i];
        assert(rv[i as int] == rec_view(*o));
        let ghost l0 = items_view(out@);
        if stage.skipped[i] {
            let item = RunLogItem {
                op_id: o.op_id.clone(),
                outcome: RunOutcome::Skipped,
                files: Vec::new(),
                addresses: Vec::new(),
                reason: Some("already applied; pass --force to re-run".to_owned()),
            };
            assert(strings_view(item.files@) =~= Seq::empty());
            assert(strings_view(item.addresses@) =~= Seq::empty());
            out.push(item);
            assert(items_view(out@) =~= l0.push(item_view(out@.last())));
        } else {
            match &o.outcome {
                OpOutcome::Failed { reason } => {
                    let outcome = if no_rollback {
                        RunOutcome::FailedNoRollback
                    } else {
                        RunOutcome::RolledBack
                    };
                    out.push(RunLogItem {
                        op_id: o.op_id.clone(),
                        outcome,
                        files: clone_strings(&o.files),
                        addresses: clone_strings(&o.addresses),
                        reason: Some(reason.clone()),
                    });
                    assert(items_view(out@) =~= l0.push(item_view(out@.last())));
                },
                _ => {},
            }
        }
        i = i + 1;
    }
    out
}

/// The run-log entry for a file that failed validation.
pub fn validation_log_item(trigger: &String, path: &String, n_errors: usize, no_rollback: bool) -> (res: RunLogItem)
    ensures
        item_view(res) == (
            trigger@,
            failure_outcome(no_rollback),
            seq![path@],
            Seq::<Seq<char>>::empty(),
            Some("schema validation: "@ + decimal(n_errors as nat) + " errors"@),
        ),
{
    let mut reason = chars_of("schema validation: ");
    append(&mut reason, &decimal_exec(n_errors));
    append_str(&mut reason, " errors");
    let files = vec![path.clone()];
    let item = RunLogItem {
        op_id: trigger.clone(),
        outcome: if no_rollback {
            RunOutcome::FailedNoRollback
        } else {
            RunOutcome::RolledBack
        },
        files,
        addresses: Vec::new(),
        reason: Some(string_of(&reason)),
    };
    assert(strings_view(item.files@) =~= seq![path@]);
    assert(strings_view(item.addresses@) =~= Seq::empty());
    item
}

// ---------------------------------------------------------------------------
// Pen-level op status
// ---------------------------------------------------------------------------

impl View for OpStatus {
    type V = OpStatus;

    open spec fn view(&self) -> OpStatus {
        *self
    }
}

/// An op's status from how many in-scope repositories failed it for good,
/// applied it, and have neither.
pub open spec fn op_status_spec(failed: nat, applied: nat, absent: nat, n: nat) -> OpStatus {
    if failed > 0 {
        OpStatus::Failed
    } else if absent == n {
        OpStatus::Pending
    } else if applied == n {
        OpStatus::Applied
    } else {
        OpStatus::Partial
    }
}

/// Repositories among the first `n` ledgers that failed op `id` for good.
pub open spec fn count_failed(ls: Seq<LedgerV>, id: Seq<char>, n: nat) -> nat
    decreases n,
{
    if n == 0 || n > ls.len() {
        0
    } else {
        count_failed(ls, id, (n - 1) as nat) + if kv_has(ls[n - 1].1, id) {
            1nat
        } else {
            0nat
        }
    }
}

/// Repositories among the first `n` ledgers that applied op `id` and did
/// not fail it.
pub open spec fn count_applied(ls: Seq<LedgerV>, id: Seq<char>, n: nat) -> nat
    decreases n,
{
    if n == 0 || n > ls.len() {
        0
    } else {
        count_applied(ls, id, (n - 1) as nat) + if !kv_has(ls[n - 1].1, id) && kv_has(ls[n - 1].0, id) {
            1nat
        } else {
            0nat
        }
    }
}

pub open spec fn ledgers_view(v: Seq<RepoOpsState>) -> Seq<LedgerV> {
    v.map_values(|l: RepoOpsState| ledger_view(l))
}

pub open spec fn status_of(ls: Seq<LedgerV>, id: Seq<char>) -> OpStatus {
    let f = count_failed(ls, id, ls.len());
    let a = count_applied(ls, id, ls.len());
    op_status_spec(f, a, (ls.len() - f - a) as nat, ls.len())
}

/// Every op's status, keyed by op id.
pub open spec fn statuses_spec(ids: Seq<Seq<char>>, ls: Seq<LedgerV>, n: nat) -> Seq<(Seq<char>, OpStatus)>
    decreases n,
{
    if n == 0 || n > ids.len() {
        Seq::empty()
    } else {
        kv_put(statuses_spec(ids, ls, (n - 1) as nat), ids[n - 1], status_of(ls, ids[n - 1]))
    }
}

proof fn lemma_counts_bound(ls: Seq<LedgerV>, id: Seq<char>, n: nat)
    requires
        n <= ls.len(),
    ensures
        count_failed(ls, id, n) + count_applied(ls, id, n) <= n,
    decreases n,
{
    if n > 0 {
        lemma_counts_bound(ls, id, (n - 1) as nat);
    }
}

fn has_key<V: View>(m: &Vec<(String, V)>, k: &String) -> (res: bool)
    ensures
        res == kv_has(kv_view(m@), k@),
{
    find_pos(m, k).is_some()
}

/// The pen-level status of each op across the in-scope repositories'
/// ledgers: failed when any repository failed it for good, pending when
/// none has it, applied when all have it, partial otherwise.
pub fn aggregate_op_statuses(op_ids: &Vec<String>, ledgers: &Vec<RepoOpsState>) -> (res: Vec<(String, OpStatus)>)
    ensures
        kv_view(res@) == statuses_spec(strings_view(op_ids@), ledgers_view(ledgers@), op_ids@.len() as nat),
{
    let ghost lv = ledgers_view(ledgers@);
    let ghost iv = strings_view(op_ids@);
    let mut out: Vec<(String, OpStatus)> = Vec::new();
    let mut k: usize = 0;
    while k < op_ids.len()
        invariant
            k <= op_ids@.len(),
            lv == ledgers_view(ledgers@),
            iv == strings_view(op_ids@),
            kv_view(out@) == statuses_spec(iv, lv, k as nat),
        decreases op_ids@.len() - k,
    {
        let id = &op_ids[k];
        assert(iv[k as int] == id@);
        let mut failed: usize = 0;
        let mut applied: usize = 0;
        let mut r: usize = 0;
        while r < ledgers.len()
            invariant
                r <= ledgers@.len(),
                lv == ledgers_view(ledgers@),
                failed == count_failed(lv, id@, r as nat),
                applied == count_applied(lv, id@, r as nat),
                failed + applied <= r,
            decreases ledgers@.len() - r,
        {
            assert(lv[r as int] == ledger_view(ledgers@[r as int]));
            if has_key(&ledgers[r].failed, id) {
                failed = failed + 1;
            } else if has_key(&ledgers[r].ops, id) {
                applied = applied + 1;
            }
            r = r + 1;
        }
        let absent = ledgers.len() - failed - applied;
        let status = if failed > 0 {
            OpStatus::Failed
        } else if absent == ledgers.len() {
            OpStatus::Pending
        } else if applied == ledgers.len() {
            OpStatus::Applied
        } else {
            OpStatus::Partial
        };
        kv_put_exec(&mut out, id.clone(), status);
        k = k + 1;
    }
    out
}

// ---------------------------------------------------------------------------
// Choosing what a rewrite covers
// ---------------------------------------------------------------------------

/// A cloned repository of a pen. `synced_at` is when it was last synced
/// against the fleet cache, in nanoseconds since the Unix epoch.
#[derive(Debug, Clone)]
pub struct PenRepo {
    pub owner: String,
    pub name: String,
    pub default_branch: String,
    pub clone_url: String,
    pub synced_at: i128,
}

/// The filter a pen was created with.
#[derive(Debug, Clone, Default)]
pub struct PenFilter {
    pub terms: Vec<String>,
}

/// Knobs of a rewrite run.
#[derive(Debug, Clone, Default)]
pub struct RewriteOptions {
    /// Restrict to a single repository, as a bare name or `owner/name`.
    pub only: Option<String>,
    /// Restrict to these op ids; empty means every op.
    pub op_ids: Vec<String>,
    /// Plan and validate without writing or recording state.
    pub dry_run: bool,
    /// Compute unified diffs (implies a dry run).
    pub diff: bool,
    /// Bypass the dirty-tree gate.
    pub allow_dirty: bool,
    /// Skip post-rewrite schema validation.
    pub no_validate: bool,
    /// Re-run ops already applied.
    pub force: bool,
    /// Leave failed rewrites' partial changes in the working tree.
    pub no_rollback: bool,
}

/// A repository is selected by `only` when `only` is absent, or names it
/// as `owner/name` or by its bare name.
pub open spec fn repo_selected(owner: Seq<char>, name: Seq<char>, only: Option<Seq<char>>) -> bool {
    match only {
        None => true,
        Some(n) => owner + "/"@ + name == n || name == n,
    }
}

pub fn repo_matches_only(owner: &String, name: &String, only: &Option<String>) -> (res: bool)
    ensures
        res == repo_selected(owner@, name@, opt_str(*only)),
{
    match only {
        None => true,
        Some(n) => {
            let mut full = chars_of(owner.as_str());
            full.push('/');
            append(&mut full, &chars_of(name.as_str()));
            proof {
                reveal_strlit("/");
                assert(full@ =~= owner@ + "/"@ + name@);
            }
            crate::text::chars_eq(&full, &chars_of(n.as_str())) || *name == *n
        },
    }
}

/// Why a rewrite refuses to start.
#[derive(Debug, Clone)]
pub enum RewriteRefusal {
    /// The pen defines no ops.
    NoOps { pen: String },
    /// An op's selector does not parse.
    MalformedSelector { op_id: String, cause: PlanError },
    /// `only` selects no repository.
    NoRepos,
    /// Repositories with uncommitted changes.
    Dirty { repos: Vec<String> },
    /// The op ids select no op.
    NoOpsSelected,
}

/// Indices of the repositories a rewrite covers.
pub open spec fn selected_repos(repos: Seq<PenRepo>, only: Option<Seq<char>>, n: nat) -> Seq<nat>
    decreases n,
{
    if n == 0 || n > repos.len() {
        Seq::empty()
    } else {
        let rest = selected_repos(repos, only, (n - 1) as nat);
        if repo_selected(repos[n - 1].owner@, repos[n - 1].name@, only) {
            rest.push((n - 1) as nat)
        } else {
            rest
        }
    }
}

pub open spec fn usizes(v: Seq<usize>) -> Seq<nat> {
    v.map_values(|i: usize| i as nat)
}

/// The first op whose selector fails to plan, if any.
pub open spec fn first_malformed(ops: Seq<RewriteOp>, n: nat) -> Option<nat>
    decreases n,
{
    if n == 0 || n > ops.len() {
        None
    } else {
        match first_malformed(ops, (n - 1) as nat) {
            Some(i) => Some(i),
            None => if plan_spec(ops[n - 1], JVal::Null) is Err {
                Some((n - 1) as nat)
            } else {
                None
            },
        }
    }
}

/// The checks before a rewrite touches any repository: the pen has ops,
/// every selector parses, and `only` selects some repository, whose
/// indices come back.
pub fn preflight(pen_name: &String, ops: &Vec<RewriteOp>, repos: &Vec<PenRepo>, only: &Option<String>) -> (res: Result<Vec<usize>, RewriteRefusal>)
    ensures
        match res {
            Ok(sel) => ops@.len() > 0 && first_malformed(ops@, ops@.len() as nat) is None
                && usizes(sel@) == selected_repos(repos@, opt_str(*only), repos@.len() as nat) && sel@.len() > 0,
            Err(RewriteRefusal::NoOps { pen }) => ops@.len() == 0 && pen@ == pen_name@,
            Err(RewriteRefusal::MalformedSelector { op_id, cause }) => ops@.len() > 0 && ({
                let i = first_malformed(ops@, ops@.len() as nat);
                &&& i is Some
                &&& op_id@ == ops@[i->0 as int].id@
                &&& first_plan_error(cause, ops@[i->0 as int], JVal::Null)
            }),
            Err(RewriteRefusal::NoRepos) => ops@.len() > 0 && first_malformed(ops@, ops@.len() as nat) is None
                && selected_repos(repos@, opt_str(*only), repos@.len() as nat).len() == 0,
            Err(_) => false,
        },
{
    if ops.len() == 0 {
        return Err(RewriteRefusal::NoOps { pen: pen_name.clone() });
    }
    let null = Json::Null;
    let mut i: usize = 0;
    while i < ops.len()
        invariant
            i <= ops@.len(),
            null@ == JVal::Null,
            first_malformed(ops@, i as nat) is None,
        decreases ops@.len() - i,
    {
        match plan_rewrite(&ops[i], &null) {
            Ok(_) => {},
            Err(cause) => {
                proof {
                    lemma_first_malformed_stays(ops@, (i + 1) as nat, ops@.len() as nat);
                }
                return Err(RewriteRefusal::MalformedSelector { op_id: ops[i].id.clone(), cause });
            },
        }
        i = i + 1;
    }
    let mut sel: Vec<usize> = Vec::new();
    let mut r: usize = 0;
    while r < repos.len()
        invariant
            r <= repos@.len(),
            usizes(sel@) == selected_repos(repos@, opt_str(*only), r as nat),
        decreases repos@.len() - r,
    {
        if repo_matches_only(&repos[r].owner, &repos[r].name, only) {
            let ghost s0 = usizes(sel@);
            sel.push(r);
            assert(usizes(sel@) =~= s0.push(r as nat));
        }
        r = r + 1;
    }
    if sel.len() == 0 {
        return Err(RewriteRefusal::NoRepos);
    }
    Ok(sel)
}

proof fn lemma_first_malformed_stays(ops: Seq<RewriteOp>, n: nat, m: nat)
    requires
        n <= m <= ops.len(),
        first_malformed(ops, n) is Some,
    ensures
        first_malformed(ops, m) == first_malformed(ops, n),
    decreases m - n,
{
    if n < m {
        lemma_first_malformed_stays(ops, n, (m - 1) as nat);
    }
}

/// Indices of the ops a rewrite runs: all when no op id is given,
/// otherwise those whose id is given.
pub open spec fn ops_in_scope_spec(ops: Seq<RewriteOp>, ids: Seq<Seq<char>>, n: nat) -> Seq<nat>
    decreases n,
{
    if n == 0 || n > ops.len() {
        Seq::empty()
    } else {
        let rest = ops_in_scope_spec(ops, ids, (n - 1) as nat);
        if ids.len() == 0 || ids.contains(ops[n - 1].id@) {
            rest.push((n - 1) as nat)
        } else {
            rest
        }
    }
}

/// The ops a rewrite runs, refused when none.
pub fn ops_in_scope(ops: &Vec<RewriteOp>, op_ids: &Vec<String>) -> (res: Result<Vec<usize>, RewriteRefusal>)
    ensures
        match res {
            Ok(v) => usizes(v@) == ops_in_scope_spec(ops@, strings_view(op_ids@), ops@.len() as nat) && v@.len() > 0,
            Err(e) => e is NoOpsSelected && ops_in_scope_spec(ops@, strings_view(op_ids@), ops@.len() as nat).len() == 0,
        },
{
    let mut out: Vec<usize> = Vec::new();
    let mut i: usize = 0;
    while i < ops.len()
        invariant
            i <= ops@.len(),
            usizes(out@) == ops_in_scope_spec(ops@, strings_view(op_ids@), i as nat),
        decreases ops@.len() - i,
    {
        if op_ids.len() == 0 || contains_str(op_ids, &ops[i].id) {
            let ghost s0 = usizes(out@);
            out.push(i);
            assert(usizes(out@) =~= s0.push(i as nat));
        }
        i = i + 1;
    }
    if out.len() == 0 {
        return Err(RewriteRefusal::NoOpsSelected);
    }
    Ok(out)
}

impl RewriteRefusal {
    /// The refusal's text.
    pub fn message(&self) -> (res: String)
        ensures
            res@ == match self {
                RewriteRefusal::NoOps { pen } => "pen "@ + pen@ + " has no ops defined; nothing to rewrite"@,
                RewriteRefusal::MalformedSelector { op_id, cause } => "op "@ + crate::json::quoted(op_id@)
                    + " has malformed selector: "@ + "parsing selector predicate "@ + crate::json::quoted(
                    cause.predicate@,
                ) + ": "@ + cause.cause.message_spec(),
                RewriteRefusal::NoRepos => "no repos selected (check --only)"@,
                RewriteRefusal::Dirty { repos } => "refusing to rewrite: "@ + decimal(repos@.len() as nat)
                    + " repo(s) have uncommitted changes; resolve via `pen clean`, commit, or pass --allow-dirty:\n  "@
                    + joined_with(strings_view(repos@), "\n  "@),
                RewriteRefusal::NoOpsSelected => "no ops selected (check --op)"@,
            },
    {
        match self {
            RewriteRefusal::NoOps { pen } => {
                let mut out = chars_of("pen ");
                append(&mut out, &chars_of(pen.as_str()));
                append_str(&mut out, " has no ops defined; nothing to rewrite");
                string_of(&out)
            },
            RewriteRefusal::MalformedSelector { op_id, cause } => {
                let mut out = chars_of("op ");
                append(&mut out, &crate::address::quoted_string(&chars_of(op_id.as_str())));
                append_str(&mut out, " has malformed selector: ");
                let m = cause.message();
                append(&mut out, &chars_of(m.as_str()));
                string_of(&out)
            },
            RewriteRefusal::NoRepos => "no repos selected (check --only)".to_owned(),
            RewriteRefusal::Dirty { repos } => {
                let mut out = chars_of("refusing to rewrite: ");
                append(&mut out, &decimal_exec(repos.len()));
                append_str(
                    &mut out,
                    " repo(s) have uncommitted changes; resolve via `pen clean`, commit, or pass --allow-dirty:\n  ",
                );
                let j = join_with(repos, "\n  ");
                append(&mut out, &chars_of(j.as_str()));
                string_of(&out)
            },
            RewriteRefusal::NoOpsSelected => "no ops selected (check --op)".to_owned(),
        }
    }
}

/// Items joined with a separator.
pub open spec fn joined_with(s: Seq<Seq<char>>, sep: Seq<char>) -> Seq<char>
    decreases s.len(),
{
    if s.len() == 0 {
        Seq::empty()
    } else if s.len() == 1 {
        s[0]
    } else {
        joined_with(s.drop_last(), sep) + sep + s.last()
    }
}

pub fn join_with(v: &Vec<String>, sep: &str) -> (res: String)
    ensures
        res@ == joined_with(strings_view(v@), sep@),
{
    let ghost sv = strings_view(v@);
    let mut out: Vec<char> = Vec::new();
    let mut i: usize = 0;
    while i < v.len()
        invariant
            i <= v@.len(),
            sv == strings_view(v@),
            out@ == joined_with(sv.take(i as int), sep@),
        decreases v@.len() - i,
    {
        if i > 0 {
            append_str(&mut out, sep);
        }
        append(&mut out, &chars_of(v[i].as_str()));
        assert(sv.take(i + 1).drop_last() =~= sv.take(i as int));
        i = i + 1;
    }
    assert(sv.take(v@.len() as int) =~= sv);
    string_of(&out)
}

/// The dirty-tree gate: refused when any repository has uncommitted
/// changes, listing them as `owner/name`.
pub fn dirty_gate(dirty: Vec<String>) -> (res: Option<RewriteRefusal>)
    ensures
        dirty@.len() == 0 ==> res is None,
        dirty@.len() > 0 ==> (res matches Some(RewriteRefusal::Dirty { repos }) && repos@ == dirty@),
{
    if dirty.len() == 0 {
        None
    } else {
        Some(RewriteRefusal::Dirty { repos: dirty })
    }
}

// ---------------------------------------------------------------------------
// Pen names
// ---------------------------------------------------------------------------

pub open spec fn is_ascii_alnum(c: char) -> bool {
    ('0' <= c <= '9') || ('a' <= c <= 'z') || ('A' <= c <= 'Z')
}

/// The slug of the first `n` characters, and whether it ends in a hyphen
/// that a run of other characters produced.
pub open spec fn slug_acc(s: Seq<char>, n: nat) -> (Seq<char>, bool)
    decreases n,
{
    if n == 0 || n > s.len() {
        (Seq::empty(), false)
    } else {
        let (out, prev) = slug_acc(s, (n - 1) as nat);
        let c = s[n - 1];
        if is_ascii_alnum(c) {
            (out.push(crate::matcher::lower_char(c)), false)
        } else if !prev && out.len() > 0 {
            (out.push('-'), true)
        } else {
            (out, prev)
        }
    }
}

pub open spec fn trim_hyphens(s: Seq<char>) -> Seq<char>
    decreases s.len(),
{
    if s.len() > 0 && s.last() == '-' {
        trim_hyphens(s.drop_last())
    } else {
        s
    }
}

/// Lower-case ASCII letters and digits, every run of anything else one
/// hyphen, none leading or trailing; `pen` when nothing is left.
pub open spec fn slugify_spec(s: Seq<char>) -> Seq<char> {
    let t = trim_hyphens(slug_acc(s, s.len()).0);
    if t.len() == 0 {
        "pen"@
    } else {
        t
    }
}

pub fn slugify(s: &str) -> (res: String)
    ensures
        res@ == slugify_spec(s@),
{
    let v = chars_of(s);
    let mut out: Vec<char> = Vec::new();
    let mut prev = false;
    let mut i: usize = 0;
    while i < v.len()
        invariant
            i <= v@.len(),
            v@ == s@,
            (out@, prev) == slug_acc(s@, i as nat),
        decreases v@.len() - i,
    {
        let c = v[i];
        if ('0' <= c && c <= '9') || ('a' <= c && c <= 'z') || ('A' <= c && c <= 'Z') {
            out.push(crate::matcher::lower_char_exec(c));
            prev = false;
        } else if !prev && out.len() > 0 {
            out.push('-');
            prev = true;
        }
        i = i + 1;
    }
    while out.len() > 0 && out[out.len() - 1] == '-'
        invariant
            trim_hyphens(out@) == trim_hyphens(slug_acc(s@, s@.len()).0),
        decreases out@.len(),
    {
        out.pop();
    }
    if out.len() == 0 {
        "pen".to_owned()
    } else {
        string_of(&out)
    }
}

/// A pen's default name: `nave/` and the first 20 characters of the slug
/// of the first term, without its scope prefix (what precedes its first
/// `:`); `pen` stands in for no term.
pub open spec fn derive_name_spec(terms: Seq<String>) -> Seq<char> {
    let raw = if terms.len() > 0 {
        terms[0]@
    } else {
        "pen"@
    };
    let after = match find_from(raw, ':', 0) {
        Some(c) => raw.subrange(c + 1, raw.len() as int),
        None => raw,
    };
    let slug = slugify_spec(after);
    "nave/"@ + slug.take(if slug.len() < 20 { slug.len() as int } else { 20 })
}

pub fn derive_name(terms: &Vec<String>) -> (res: String)
    ensures
        res@ == derive_name_spec(terms@),
{
    let raw = if terms.len() > 0 {
        chars_of(terms[0].as_str())
    } else {
        chars_of("pen")
    };
    let after = match crate::text::find_from_exec(&raw, ':', 0) {
        Some(c) => crate::text::slice(&raw, c + 1, raw.len()),
        None => raw,
    };
    let slug = chars_of(slugify(string_of(&after).as_str()).as_str());
    let n = if slug.len() < 20 {
        slug.len()
    } else {
        20
    };
    let mut out = chars_of("nave/");
    append(&mut out, &crate::text::slice(&slug, 0, n));
    proof {
        assert(slug@.subrange(0, n as int) =~= slug@.take(n as int));
    }
    string_of(&out)
}

/// A name for a new pen under a root whose entries are `existing`: the
/// name itself when its directory is free, else the first free of
/// `<name>-2` to `<name>-999`.
pub open spec fn suffixed(name: Seq<char>, n: nat) -> Seq<char> {
    name + "-"@ + decimal(n)
}

pub open spec fn unique_name_from(name: Seq<char>, existing: Seq<Seq<char>>, n: nat) -> Option<Seq<char>>
    decreases 1000 - n,
{
    if n >= 1000 {
        None
    } else if !existing.contains(crate::paths::pen_dir_name(suffixed(name, n))) {
        Some(suffixed(name, n))
    } else {
        unique_name_from(name, existing, n + 1)
    }
}

pub open spec fn unique_name(name: Seq<char>, existing: Seq<Seq<char>>) -> Option<Seq<char>> {
    if !existing.contains(crate::paths::pen_dir_name(name)) {
        Some(name)
    } else {
        unique_name_from(name, existing, 2)
    }
}

fn pen_dir_name_exec(name: &String) -> (res: String)
    ensures
        res@ == crate::paths::pen_dir_name(name@),
{
    let n = chars_of(name.as_str());
    proof {
        reveal_strlit("nave/");
    }
    if crate::text::has_prefix(&n, &chars_of("nave/")) {
        string_of(&crate::text::slice(&n, 5, n.len()))
    } else {
        name.clone()
    }
}

/// Picks a name for a new pen that no entry under the pen root takes;
/// `existing` holds the names of the root's entries.
pub fn ensure_name_unique(name: &String, existing: &Vec<String>) -> (res: Result<String, String>)
    ensures
        match unique_name(name@, strings_view(existing@)) {
            Some(n) => res matches Ok(r) && r@ == n,
            None => res matches Err(m) && m@ == "could not find a unique name for pen "@ + name@,
        },
{
    let ghost ev = strings_view(existing@);
    if !contains_str(existing, &pen_dir_name_exec(name)) {
        return Ok(name.clone());
    }
    let mut n: usize = 2;
    while n < 1000
        invariant
            2 <= n <= 1000,
            ev == strings_view(existing@),
            unique_name(name@, ev) == unique_name_from(name@, ev, n as nat),
        decreases 1000 - n,
    {
        let mut cand = chars_of(name.as_str());
        append_str(&mut cand, "-");
        append(&mut cand, &decimal_exec(n));
        let c = string_of(&cand);
        if !contains_str(existing, &pen_dir_name_exec(&c)) {
            return Ok(c);
        }
        n = n + 1;
    }
    let mut m = chars_of("could not find a unique name for pen ");
    append(&mut m, &chars_of(name.as_str()));
    Err(string_of(&m))
}

// ---------------------------------------------------------------------------
// Reports
// ---------------------------------------------------------------------------

/// A file's unified diff.
#[derive(Debug, Clone)]
pub struct FileDiff {
    pub path: String,
    pub diff: String,
}

/// What `similar` renders as the unified diff, with headers naming `path`,
/// from the old text to the new one.
pub uninterp spec fn unified_diff_text(old: Seq<char>, new: Seq<char>, path: Seq<char>) -> Seq<char>;

/// `similar::TextDiff::from_lines(old, new).unified_diff().header(path,
/// path)`, rendered: named as `unified_diff_text` of the three texts; no
/// more of it is claimed.
#[verifier::external_body]
fn unified_diff(old: &str, new: &str, path: &str) -> (res: String)
    ensures
        res@ == unified_diff_text(old@, new@, path@),
{
    similar::TextDiff::from_lines(old, new).unified_diff().header(path, path).to_string()
}

/// The diff of a file from its original bytes (read as UTF-8, invalid
/// sequences replaced) to its rewritten text; none where they render no
/// hunk.
pub fn diff_for(path: &String, original: &[u8], rendered: &String) -> (res: Option<FileDiff>)
    ensures
        match res {
            Some(d) => {
                &&& d.path@ == path@
                &&& d.diff@ == unified_diff_text(utf8_lossy(original@), rendered@, path@)
                &&& d.diff@.len() > 0
            },
            None => unified_diff_text(utf8_lossy(original@), rendered@, path@).len() == 0,
        },
{
    let old = lossy_text(original);
    let diff = unified_diff(old.as_str(), rendered.as_str(), path.as_str());
    if diff.as_str().is_empty() {
        None
    } else {
        Some(FileDiff { path: path.clone(), diff })
    }
}

/// How a rewrite went on one repository.
#[derive(Debug)]
pub struct RewriteRepoOutcome {
    pub owner: String,
    pub repo: String,
    pub ops: Vec<RewriteOpOutcome>,
    /// Whether the repository's changes were written.
    pub committed: bool,
    /// The op (or `validation@<path>`) that caused a rollback.
    pub rollback_trigger: Option<String>,
    /// Where this run's log artefacts for the repository went, if any.
    pub logs_dir: Option<String>,
    /// Unified diffs per file, when asked for.
    pub diffs: Vec<FileDiff>,
}

/// A whole rewrite run.
#[derive(Debug)]
pub struct RewritePenReport {
    pub pen: String,
    pub run_id: String,
    pub repos: Vec<RewriteRepoOutcome>,
    /// Op id and its pen-level status after the run, by op id.
    pub op_statuses: Vec<(String, OpStatus)>,
    pub dry_run: bool,
}

/// What a sync did.
#[derive(Debug, Clone, Default)]
pub struct SyncReport {
    pub freshened: usize,
    pub stale_repos: Vec<String>,
}

/// Options for creating a pen.
#[derive(Debug, Clone)]
pub struct CreateOptions {
    pub name: Option<String>,
    pub terms: Vec<String>,
    pub match_preds: Vec<String>,
    pub ignore_case: bool,
}

/// The run-log entries recorded when a repository's rewrite state is
/// cleared: one skip per op it had applied, then per op it had failed.
pub open spec fn cleared_log(l: LedgerV) -> Seq<LogV> {
    (l.0.map_values(|e: (Seq<char>, i128)| e.0) + l.1.map_values(|e: (Seq<char>, (i128, Seq<char>))| e.0)).map_values(
        |id: Seq<char>|
            (
                id,
                RunOutcome::Skipped,
                Seq::<Seq<char>>::empty(),
                Seq::<Seq<char>>::empty(),
                Some("state cleared by pen clean/revert/reinit"@),
            ),
    )
}

pub fn cleared_log_items(l: &RepoOpsState) -> (res: Vec<RunLogItem>)
    ensures
        items_view(res@) == cleared_log(ledger_view(*l)),
{
    let ghost target = cleared_log(ledger_view(*l));
    let ghost na = l.ops@.len();
    let mut out: Vec<RunLogItem> = Vec::new();
    let mut i: usize = 0;
    while i < l.ops.len()
        invariant
            i <= l.ops@.len(),
            na == l.ops@.len(),
            target == cleared_log(ledger_view(*l)),
            target.len() == l.ops@.len() + l.failed@.len(),
            items_view(out@) == target.take(i as int),
        decreases l.ops@.len() - i,
    {
        let item = RunLogItem {
            op_id: l.ops[i].0.clone(),
            outcome: RunOutcome::Skipped,
            files: Vec::new(),
            addresses: Vec::new(),
            reason: Some("state cleared by pen clean/revert/reinit".to_owned()),
        };
        assert(strings_view(item.files@) =~= Seq::empty());
        assert(strings_view(item.addresses@) =~= Seq::empty());
        let ghost o0 = items_view(out@);
        out.push(item);
        assert(items_view(out@) =~= o0.push(item_view(item)));
        assert(target[i as int] == item_view(item));
        assert(items_view(out@) =~= target.take(i + 1));
        i = i + 1;
    }
    let mut j: usize = 0;
    while j < l.failed.len()
        invariant
            j <= l.failed@.len(),
            na == l.ops@.len(),
            target == cleared_log(ledger_view(*l)),
            target.len() == l.ops@.len() + l.failed@.len(),
            items_view(out@) == target.take((na + j) as int),
        decreases l.failed@.len() - j,
    {
        let item = RunLogItem {
            op_id: l.failed[j].0.clone(),
            outcome: RunOutcome::Skipped,
            files: Vec::new(),
            addresses: Vec::new(),
            reason: Some("state cleared by pen clean/revert/reinit".to_owned()),
        };
        assert(strings_view(item.files@) =~= Seq::empty());
        assert(strings_view(item.addresses@) =~= Seq::empty());
        let ghost o0 = items_view(out@);
        out.push(item);
        assert(items_view(out@) =~= o0.push(item_view(item)));
        assert(target[(na + j) as int] == item_view(item));
        assert(items_view(out@) =~= target.take((na + j + 1) as int));
        j = j + 1;
    }
    assert(target.take((na + l.failed@.len()) as int) =~= target);
    out
}

// ---------------------------------------------------------------------------
// Filtering pens by their repositories' states
// ---------------------------------------------------------------------------

/// Filters on a pen's repositories: each set filter needs some repository
/// in that state.
#[derive(Debug, Clone, Copy)]
pub struct ListFilters {
    pub working_tree: Option<WorkTree>,
    pub freshness: Option<Freshness>,
    pub run_state: Option<RunState>,
}

pub open spec fn some_state(states: Seq<RepoState>, f: spec_fn(RepoState) -> bool) -> bool {
    exists|i: int| 0 <= i < states.len() && f(#[trigger] states[i])
}

pub open spec fn filters_match(f: ListFilters, states: Seq<RepoState>) -> bool {
    if states.len() == 0 {
        f.working_tree is None && f.freshness is None && f.run_state is None
    } else {
        &&& (f.working_tree matches Some(wt) ==> some_state(states, |s: RepoState| s.working_tree == wt))
        &&& (f.freshness matches Some(fr) ==> some_state(states, |s: RepoState| s.freshness == fr))
        &&& (f.run_state matches Some(rs) ==> some_state(states, |s: RepoState| s.run_state == rs))
    }
}

impl ListFilters {
    /// Whether a pen with these repository states passes the filters; an
    /// empty pen passes only when no filter is set.
    pub fn all_match(&self, states: &Vec<RepoState>) -> (res: bool)
        ensures
            res == filters_match(*self, states@),
    {
        if states.len() == 0 {
            return self.working_tree.is_none() && self.freshness.is_none() && self.run_state.is_none();
        }
        if let Some(wt) = self.working_tree {
            let mut found = false;
            let mut i: usize = 0;
            while i < states.len()
                invariant
                    i <= states@.len(),
                    found == exists|j: int| 0 <= j < i && (#[trigger] states@[j]).working_tree == wt,
                decreases states@.len() - i,
            {
                if states[i].working_tree == wt {
                    found = true;
                }
                i = i + 1;
            }
            if !found {
                assert(!some_state(states@, |s: RepoState| s.working_tree == wt));
                return false;
            }
        }
        if let Some(fr) = self.freshness {
            let mut found = false;
            let mut i: usize = 0;
            while i < states.len()
                invariant
                    i <= states@.len(),
                    found == exists|j: int| 0 <= j < i && (#[trigger] states@[j]).freshness == fr,
                decreases states@.len() - i,
            {
                if states[i].freshness == fr {
                    found = true;
                }
                i = i + 1;
            }
            if !found {
                assert(!some_state(states@, |s: RepoState| s.freshness == fr));
                return false;
            }
        }
        if let Some(rs) = self.run_state {
            let mut found = false;
            let mut i: usize = 0;
            while i < states.len()
                invariant
                    i <= states@.len(),
                    found == exists|j: int| 0 <= j < i && (#[trigger] states@[j]).run_state == rs,
                decreases states@.len() - i,
            {
                if states[i].run_state == rs {
                    found = true;
                }
                i = i + 1;
            }
            if !found {
                assert(!some_state(states@, |s: RepoState| s.run_state == rs));
                return false;
            }
        }
        true
    }
}

/// One `key=value` filter applied to `f`, or why it is refused.
pub open spec fn filter_step(f: ListFilters, s: Seq<char>) -> Result<ListFilters, Seq<char>> {
    match find_from(s, '=', 0) {
        None => Err("filter must be key=value: "@ + crate::json::quoted(s)),
        Some(eq) => {
            let k = s.subrange(0, eq);
            let v = s.subrange(eq + 1, s.len() as int);
            if k == "working-tree"@ {
                if v == "clean"@ {
                    Ok(ListFilters { working_tree: Some(WorkTree::Clean), ..f })
                } else if v == "dirty"@ {
                    Ok(ListFilters { working_tree: Some(WorkTree::Dirty), ..f })
                } else if v == "missing"@ {
                    Ok(ListFilters { working_tree: Some(WorkTree::Missing), ..f })
                } else {
                    Err("unknown working-tree value "@ + crate::json::quoted(v))
                }
            } else if k == "freshness"@ {
                if v == "fresh"@ {
                    Ok(ListFilters { freshness: Some(Freshness::Fresh), ..f })
                } else if v == "stale"@ {
                    Ok(ListFilters { freshness: Some(Freshness::Stale), ..f })
                } else if v == "unknown"@ {
                    Ok(ListFilters { freshness: Some(Freshness::Unknown), ..f })
                } else {
                    Err("unknown freshness value "@ + crate::json::quoted(v))
                }
            } else if k == "run-state"@ {
                if v == "not-run"@ {
                    Ok(ListFilters { run_state: Some(RunState::NotRun), ..f })
                } else if v == "run-local"@ {
                    Ok(ListFilters { run_state: Some(RunState::RunLocal), ..f })
                } else if v == "run-pushed"@ {
                    Ok(ListFilters { run_state: Some(RunState::RunPushed), ..f })
                } else {
                    Err("unknown run-state value "@ + crate::json::quoted(v))
                }
            } else {
                Err("unknown filter key "@ + crate::json::quoted(k))
            }
        },
    }
}

pub open spec fn filters_spec(raw: Seq<String>, n: nat) -> Result<ListFilters, Seq<char>>
    decreases n,
{
    if n == 0 || n > raw.len() {
        Ok(ListFilters { working_tree: None, freshness: None, run_state: None })
    } else {
        match filters_spec(raw, (n - 1) as nat) {
            Ok(f) => filter_step(f, raw[n - 1]@),
            Err(e) => Err(e),
        }
    }
}

proof fn lemma_filters_err_stays(raw: Seq<String>, n: nat, m: nat)
    requires
        n <= m <= raw.len(),
        filters_spec(raw, n) is Err,
    ensures
        filters_spec(raw, m) == filters_spec(raw, n),
    decreases m - n,
{
    if n < m {
        lemma_filters_err_stays(raw, n, (m - 1) as nat);
    }
}

fn quoted_msg(prefix: &str, v: &Vec<char>) -> (res: String)
    ensures
        res@ == prefix@ + crate::json::quoted(v@),
{
    let mut out = chars_of(prefix);
    append(&mut out, &crate::address::quoted_string(v));
    string_of(&out)
}

fn eq_str(v: &Vec<char>, s: &str) -> (res: bool)
    ensures
        res == (v@ == s@),
{
    crate::text::chars_eq(v, &chars_of(s))
}

/// Parses `key=value` filters on a pen's repositories: `working-tree`
/// (`clean`, `dirty`, `missing`), `freshness` (`fresh`, `stale`, `unknown`) and
/// `run-state` (`not-run`, `run-local`, `run-pushed`); a later filter on
/// the same key wins.
pub fn parse_filters(raw: &Vec<String>) -> (res: Result<ListFilters, String>)
    ensures
        match filters_spec(raw@, raw@.len() as nat) {
            Ok(f) => res == Ok::<ListFilters, String>(f),
            Err(m) => res matches Err(e) && e@ == m,
        },
{
    let mut f = ListFilters { working_tree: None, freshness: None, run_state: None };
    let mut i: usize = 0;
    while i < raw.len()
        invariant
            i <= raw@.len(),
            filters_spec(raw@, i as nat) == Ok::<ListFilters, Seq<char>>(f),
        decreases raw@.len() - i,
    {
        let s = chars_of(raw[i].as_str());
        let eq = match crate::text::find_from_exec(&s, '=', 0) {
            Some(eq) => eq,
            None => {
                proof {
                    lemma_filters_err_stays(raw@, (i + 1) as nat, raw@.len() as nat);
                }
                return Err(quoted_msg("filter must be key=value: ", &s));
            },
        };
        let k = crate::text::slice(&s, 0, eq);
        let v = crate::text::slice(&s, eq + 1, s.len());
        let step: Result<ListFilters, String> = if eq_str(&k, "working-tree") {
            if eq_str(&v, "clean") {
                Ok(ListFilters { working_tree: Some(WorkTree::Clean), ..f })
            } else if eq_str(&v, "dirty") {
                Ok(ListFilters { working_tree: Some(WorkTree::Dirty), ..f })
            } else if eq_str(&v, "missing") {
                Ok(ListFilters { working_tree: Some(WorkTree::Missing), ..f })
            } else {
                Err(quoted_msg("unknown working-tree value ", &v))
            }
        } else if eq_str(&k, "freshness") {
            if eq_str(&v, "fresh") {
                Ok(ListFilters { freshness: Some(Freshness::Fresh), ..f })
            } else if eq_str(&v, "stale") {
                Ok(ListFilters { freshness: Some(Freshness::Stale), ..f })
            } else if eq_str(&v, "unknown") {
                Ok(ListFilters { freshness: Some(Freshness::Unknown), ..f })
            } else {
                Err(quoted_msg("unknown freshness value ", &v))
            }
        } else if eq_str(&k, "run-state") {
            if eq_str(&v, "not-run") {
                Ok(ListFilters { run_state: Some(RunState::NotRun), ..f })
            } else if eq_str(&v, "run-local") {
                Ok(ListFilters { run_state: Some(RunState::RunLocal), ..f })
            } else if eq_str(&v, "run-pushed") {
                Ok(ListFilters { run_state: Some(RunState::RunPushed), ..f })
            } else {
                Err(quoted_msg("unknown run-state value ", &v))
            }
        } else {
            Err(quoted_msg("unknown filter key ", &k))
        };
        match step {
            Ok(g) => {
                f = g;
            },
            Err(e) => {
                proof {
                    lemma_filters_err_stays(raw@, (i + 1) as nat, raw@.len() as nat);
                }
                return Err(e);
            },
        }
        i = i + 1;
    }
    Ok(f)
}

/// A tracked file of one of a pen's clones.
#[derive(Debug, Clone)]
pub struct TrackedFile {
    pub owner: String,
    pub repo: String,
    /// Relative to the clone, with `/` separators.
    pub relpath: String,
    pub abspath: String,
}

/// The log artefacts written for one op invocation; empty texts give empty
/// files.
#[derive(Debug, Clone, Default)]
pub struct OpLogArtefacts<'a> {
    pub stdout: &'a str,
    pub stderr: &'a str,
    pub err: &'a str,
}

} // verus!
