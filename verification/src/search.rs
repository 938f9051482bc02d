//! Predicate-based search over the cached fleet: which repos satisfy every
//! term and every match predicate, with the files that gave the evidence.
//!
//! Reading the cache and parsing files happens at the edge; what is decided
//! here is, for one repo whose tracked files have been read, whether it
//! matches and why.

use vstd::prelude::*;
use vstd::utf8::encode_utf8;

use crate::address::strings_view;
use crate::json::{JVal, Json};
use crate::match_pred::{MatchPredicate, PredV, find_match_addresses, match_addresses, scope_applies};
use crate::matcher::{PathMatcher, effective, glob_matches};
use crate::order::{nat_seq, pair_seqs, stable_by_pair, stable_by_stamp_desc, stable_order_by_pair, stable_order_by_stamp_desc};
use crate::term::{Term, TermV, first_hit_from};
use crate::text::chars_of;

verus! {

/// A tracked file of one repo, as read from its checkout.
pub struct FileEntry {
    /// The tracked-path pattern the file was classified under.
    pub pattern: String,
    pub path: String,
    pub bytes: Vec<u8>,
    /// The parsed tree, when predicates need one and the file parsed.
    pub tree: Option<Json>,
}

/// A file that satisfied a term, with the needle that matched.
#[derive(Debug, Clone)]
pub struct FileMatch {
    pub path: String,
    pub matched_needle: String,
}

/// Per-term evidence: the files that satisfied the term.
#[derive(Debug, Clone)]
pub struct TermHit {
    /// Original term text, e.g. `workflow:pytest|nox`.
    pub term: String,
    pub files: Vec<FileMatch>,
}

/// A file holding addresses where a predicate held.
#[derive(Debug, Clone)]
pub struct MatchFileHit {
    pub path: String,
    /// Concrete addresses where the predicate was satisfied.
    pub addresses: Vec<String>,
}

/// Per-predicate evidence.
#[derive(Debug, Clone)]
pub struct MatchHit {
    /// Original predicate text.
    pub predicate: String,
    pub files: Vec<MatchFileHit>,
}

/// A repo that satisfied the whole query.
#[derive(Debug, Clone)]
pub struct RepoMatch {
    pub owner: String,
    pub repo: String,
    /// Last push, in nanoseconds since the Unix epoch.
    pub pushed_at: Option<i128>,
    /// One entry per term.
    pub hits: Vec<TermHit>,
    /// One entry per match predicate.
    pub match_hits: Vec<MatchHit>,
}

/// The query.
pub struct SearchOptions {
    pub terms: Vec<Term>,
    pub match_preds: Vec<MatchPredicate>,
    pub ignore_case: bool,
    /// Whether to enrich results with hole-level addresses.
    pub enrich_holes: bool,
}

impl View for FileMatch {
    type V = (Seq<char>, Seq<char>);

    open spec fn view(&self) -> (Seq<char>, Seq<char>) {
        (self.path@, self.matched_needle@)
    }
}

impl View for MatchFileHit {
    type V = (Seq<char>, Seq<Seq<char>>);

    open spec fn view(&self) -> (Seq<char>, Seq<Seq<char>>) {
        (self.path@, strings_view(self.addresses@))
    }
}

pub open spec fn file_matches_view(v: Seq<FileMatch>) -> Seq<(Seq<char>, Seq<char>)> {
    v.map_values(|f: FileMatch| f@)
}

pub open spec fn file_hits_view(v: Seq<MatchFileHit>) -> Seq<(Seq<char>, Seq<Seq<char>>)> {
    v.map_values(|f: MatchFileHit| f@)
}

/// For the first `n` files: those in the term's scope holding one of its
/// needles, each with the first needle found.
pub open spec fn term_files(files: Seq<FileEntry>, t: TermV, ic: bool, n: nat) -> Seq<
    (Seq<char>, Seq<char>),
>
    decreases n,
{
    if n == 0 || n > files.len() {
        Seq::empty()
    } else {
        let prev = term_files(files, t, ic, (n - 1) as nat);
        let f = files[n - 1];
        if scope_applies(t.scope, f.pattern@) {
            match first_hit_from(t.needles, f.bytes@, ic, 0) {
                Some(j) => prev.push((f.path@, t.needles[j])),
                None => prev,
            }
        } else {
            prev
        }
    }
}

/// For the first `n` files: those in the predicate's scope with a parsed
/// tree where it matches somewhere, each with the addresses.
pub open spec fn pred_files(files: Seq<FileEntry>, p: PredV, n: nat) -> Seq<
    (Seq<char>, Seq<Seq<char>>),
>
    decreases n,
{
    if n == 0 || n > files.len() {
        Seq::empty()
    } else {
        let prev = pred_files(files, p, (n - 1) as nat);
        let f = files[n - 1];
        if scope_applies(p.scope, f.pattern@) {
            match f.tree {
                Some(tr) => if match_addresses(tr@, p).len() > 0 {
                    prev.push((f.path@, match_addresses(tr@, p)))
                } else {
                    prev
                },
                None => prev,
            }
        } else {
            prev
        }
    }
}

/// `e` is evidence for term `t` from file `f`: the file is the one
/// reported, its tracked-path pattern contains the term's scope (when it
/// has one), and the reported needle is one of the term's needles that the
/// file's bytes contain.
pub open spec fn evidence_from(f: FileEntry, t: TermV, ic: bool, e: (Seq<char>, Seq<char>)) -> bool {
    &&& e.0 == f.path@
    &&& (t.scope matches Some(sc) ==> crate::text::contains_sub(f.pattern@, sc))
    &&& t.needles.contains(e.1)
    &&& crate::term::bytes_contain(f.bytes@, encode_utf8(e.1), ic)
}

proof fn lemma_first_hit_from(needles: Seq<Seq<char>>, h: Seq<u8>, ic: bool, i: int)
    requires
        0 <= i,
    ensures
        first_hit_from(needles, h, ic, i) matches Some(j) ==> i <= j < needles.len()
            && crate::term::bytes_contain(h, encode_utf8(needles[j]), ic),
    decreases needles.len() - i,
{
    if i < needles.len() && !crate::term::bytes_contain(h, encode_utf8(needles[i]), ic) {
        lemma_first_hit_from(needles, h, ic, i + 1);
    }
}

/// Every piece of evidence a term gets comes from a file in the term's
/// scope that holds the reported needle.
pub proof fn lemma_term_evidence_sound(files: Seq<FileEntry>, t: TermV, ic: bool, n: nat)
    ensures
        forall|k: int|
            0 <= k < term_files(files, t, ic, n).len() ==> exists|i: int|
                0 <= i < files.len() && evidence_from(files[i], t, ic, #[trigger] term_files(files, t, ic, n)[k]),
    decreases n,
{
    if n > 0 && n <= files.len() {
        lemma_term_evidence_sound(files, t, ic, (n - 1) as nat);
        let prev = term_files(files, t, ic, (n - 1) as nat);
        let f = files[n - 1];
        lemma_first_hit_from(t.needles, f.bytes@, ic, 0);
        assert forall|k: int| 0 <= k < term_files(files, t, ic, n).len() implies exists|i: int|
            0 <= i < files.len() && evidence_from(files[i], t, ic, #[trigger] term_files(files, t, ic, n)[k]) by {
            let cur = term_files(files, t, ic, n);
            if k < prev.len() {
                assert(cur[k] == prev[k]);
                assert(exists|i: int| 0 <= i < files.len() && evidence_from(files[i], t, ic, #[trigger] prev[k]));
            } else {
                let j = first_hit_from(t.needles, f.bytes@, ic, 0)->0;
                assert(cur[k] == (f.path@, t.needles[j]));
                assert(t.needles.contains(t.needles[j]));
                assert(evidence_from(files[n - 1], t, ic, cur[k]));
            }
        }
    }
}

/// Evidence for one term over all files.
pub fn term_evidence(files: &Vec<FileEntry>, term: &Term, ignore_case: bool) -> (res: Vec<FileMatch>)
    ensures
        file_matches_view(res@) == term_files(files@, term@, ignore_case, files@.len()),
        forall|k: int|
            0 <= k < res@.len() ==> exists|i: int|
                0 <= i < files@.len() && evidence_from(files@[i], term@, ignore_case, (#[trigger] res@[k])@),
{
    proof {
        lemma_term_evidence_sound(files@, term@, ignore_case, files@.len() as nat);
    }
    let mut out: Vec<FileMatch> = Vec::new();
    let mut i: usize = 0;
    while i < files.len()
        invariant
            i <= files@.len(),
            file_matches_view(out@) == term_files(files@, term@, ignore_case, i as nat),
        decreases files@.len() - i,
    {
        let f = &files[i];
        let ghost before = file_matches_view(out@);
        if term.applies_to_pattern(f.pattern.as_str()) {
            match term.matches_content(f.bytes.as_slice(), ignore_case) {
                Some(needle) => {
                    let fm = FileMatch { path: f.path.clone(), matched_needle: needle.to_owned() };
                    out.push(fm);
                    assert(file_matches_view(out@) =~= before.push((f.path@, needle@)));
                },
                None => {},
            }
        }
        i = i + 1;
    }
    proof {
        let tf = term_files(files@, term@, ignore_case, files@.len() as nat);
        assert forall|k: int| 0 <= k < out@.len() implies exists|i: int|
            0 <= i < files@.len() && evidence_from(files@[i], term@, ignore_case, (#[trigger] out@[k])@) by {
            assert(file_matches_view(out@)[k] == out@[k]@);
            assert(tf[k] == out@[k]@);
            assert(exists|i: int| 0 <= i < files@.len() && evidence_from(files@[i], term@, ignore_case, #[trigger] tf[k]));
        }
    }
    out
}

/// Evidence for one predicate over all files.
pub fn predicate_evidence(files: &Vec<FileEntry>, pred: &MatchPredicate) -> (res: Vec<MatchFileHit>)
    ensures
        file_hits_view(res@) == pred_files(files@, pred@, files@.len()),
{
    let mut out: Vec<MatchFileHit> = Vec::new();
    let mut i: usize = 0;
    while i < files.len()
        invariant
            i <= files@.len(),
            file_hits_view(out@) == pred_files(files@, pred@, i as nat),
        decreases files@.len() - i,
    {
        let f = &files[i];
        let ghost before = file_hits_view(out@);
        if pred.applies_to_pattern(f.pattern.as_str()) {
            match &f.tree {
                Some(tree) => {
                    let addresses = find_match_addresses(tree, pred);
                    if addresses.len() > 0 {
                        let h = MatchFileHit { path: f.path.clone(), addresses };
                        out.push(h);
                        assert(file_hits_view(out@) =~= before.push(
                            (f.path@, match_addresses(tree@, pred@)),
                        ));
                    }
                },
                None => {},
            }
        }
        i = i + 1;
    }
    out
}

/// The repo matches: it tracks something, every term holds in some file
/// and every predicate holds in some file.
pub open spec fn repo_matches(
    tracked_empty: bool,
    files: Seq<FileEntry>,
    terms: Seq<Term>,
    preds: Seq<MatchPredicate>,
    ic: bool,
) -> bool {
    &&& !tracked_empty
    &&& forall|i: int|
        0 <= i < terms.len() ==> term_files(files, #[trigger] terms[i]@, ic, files.len()).len() > 0
    &&& forall|i: int|
        0 <= i < preds.len() ==> pred_files(files, #[trigger] preds[i]@, files.len()).len() > 0
}

/// Decide whether a repo matches the query, given its tracked files as
/// read from the checkout, and gather the evidence. `tracked_empty` says
/// whether the repo tracks no file at all.
#[verifier::loop_isolation(false)]
pub fn match_repo(
    owner: &str,
    repo: &str,
    pushed_at: Option<i128>,
    tracked_empty: bool,
    files: &Vec<FileEntry>,
    options: &SearchOptions,
) -> (res: Option<RepoMatch>)
    ensures
        res is Some <==> repo_matches(
            tracked_empty,
            files@,
            options.terms@,
            options.match_preds@,
            options.ignore_case,
        ),
        res matches Some(m) ==> {
            &&& m.owner@ == owner@
            &&& m.repo@ == repo@
            &&& m.pushed_at == pushed_at
            &&& m.hits@.len() == options.terms@.len()
            &&& forall|i: int|
                0 <= i < m.hits@.len() ==> (#[trigger] m.hits@[i]).term@ == options.terms@[i].raw@
                    && file_matches_view(m.hits@[i].files@) == term_files(
                    files@,
                    options.terms@[i]@,
                    options.ignore_case,
                    files@.len(),
                )
            &&& m.match_hits@.len() == options.match_preds@.len()
            &&& forall|i: int|
                0 <= i < m.match_hits@.len() ==> (#[trigger] m.match_hits@[i]).predicate@
                    == options.match_preds@[i].raw@ && file_hits_view(m.match_hits@[i].files@)
                    == pred_files(files@, options.match_preds@[i]@, files@.len())
        },
{
    if tracked_empty {
        return None;
    }
    let mut hits: Vec<TermHit> = Vec::new();
    let mut i: usize = 0;
    while i < options.terms.len()
        invariant
            i <= options.terms@.len(),
            hits@.len() == i,
            forall|k: int|
                0 <= k < i ==> (#[trigger] hits@[k]).term@ == options.terms@[k].raw@
                    && file_matches_view(hits@[k].files@) == term_files(
                    files@,
                    options.terms@[k]@,
                    options.ignore_case,
                    files@.len(),
                ) && term_files(files@, options.terms@[k]@, options.ignore_case, files@.len()).len()
                    > 0,
        decreases options.terms@.len() - i,
    {
        let term = &options.terms[i];
        let file_matches = term_evidence(files, term, options.ignore_case);
        if file_matches.len() == 0 {
            return None;
        }
        hits.push(TermHit { term: term.raw.clone(), files: file_matches });
        i = i + 1;
    }
    let mut match_hits: Vec<MatchHit> = Vec::new();
    let mut j: usize = 0;
    while j < options.match_preds.len()
        invariant
            j <= options.match_preds@.len(),
            match_hits@.len() == j,
            forall|k: int|
                0 <= k < j ==> (#[trigger] match_hits@[k]).predicate@
                    == options.match_preds@[k].raw@ && file_hits_view(match_hits@[k].files@)
                    == pred_files(files@, options.match_preds@[k]@, files@.len()) && pred_files(
                    files@,
                    options.match_preds@[k]@,
                    files@.len(),
                ).len() > 0,
        decreases options.match_preds@.len() - j,
    {
        let pred = &options.match_preds[j];
        let files_hit = predicate_evidence(files, pred);
        if files_hit.len() == 0 {
            return None;
        }
        let ghost fv = file_hits_view(files_hit@);
        assert(fv.len() == files_hit@.len());
        match_hits.push(MatchHit { predicate: pred.raw.clone(), files: files_hit });
        assert(match_hits@[j as int].predicate@ == options.match_preds@[j as int].raw@);
        j = j + 1;
    }
    assert forall|k: int| 0 <= k < options.terms@.len() implies term_files(
        files@,
        #[trigger] options.terms@[k]@,
        options.ignore_case,
        files@.len(),
    ).len() > 0 by {
        assert(hits@[k].term@ == options.terms@[k].raw@);
    }
    assert forall|k: int| 0 <= k < options.match_preds@.len() implies pred_files(
        files@,
        #[trigger] options.match_preds@[k]@,
        files@.len(),
    ).len() > 0 by {
        assert(match_hits@[k].predicate@ == options.match_preds@[k].raw@);
    }
    Some(
        RepoMatch {
            owner: owner.to_owned(),
            repo: repo.to_owned(),
            pushed_at,
            hits,
            match_hits,
        },
    )
}

/// The first pattern whose matcher accepts `path`.
pub open spec fn classify_spec(pms: Seq<(String, PathMatcher)>, path: Seq<char>, i: int) -> Option<int>
    decreases pms.len() - i,
{
    if i < 0 || i >= pms.len() {
        None
    } else if exists|k: int|
        0 <= k < pms[i].1.patterns().len() && glob_matches(
            #[trigger] pms[i].1.patterns()[k],
            effective(path, pms[i].1.is_case_insensitive()),
        ) {
        Some(i)
    } else {
        classify_spec(pms, path, i + 1)
    }
}

/// Which tracked-path pattern classifies `path`: the first whose matcher
/// accepts it.
pub fn classify(pattern_matchers: &Vec<(String, PathMatcher)>, path: &str) -> (res: Option<String>)
    ensures
        match classify_spec(pattern_matchers@, path@, 0) {
            Some(i) => res matches Some(p) && p@ == pattern_matchers@[i].0@,
            None => res is None,
        },
{
    let mut i: usize = 0;
    while i < pattern_matchers.len()
        invariant
            i <= pattern_matchers@.len(),
            classify_spec(pattern_matchers@, path@, 0) == classify_spec(
                pattern_matchers@,
                path@,
                i as int,
            ),
        decreases pattern_matchers@.len() - i,
    {
        if pattern_matchers[i].1.is_match(path) {
            return Some(pattern_matchers[i].0.clone());
        }
        i = i + 1;
    }
    None
}

/// How matched repositories are listed.
#[derive(Debug, Clone, Copy, PartialEq, Eq, Structural)]
pub enum SortKey {
    /// Latest push first; repositories never pushed come last.
    PushedAt,
    /// By owner, then by name.
    Name,
}

pub open spec fn push_stamps(repos: Seq<RepoMatch>) -> Seq<Option<i128>> {
    repos.map_values(|r: RepoMatch| r.pushed_at)
}

pub open spec fn name_keys(repos: Seq<RepoMatch>) -> Seq<(Seq<char>, Seq<char>)> {
    repos.map_values(|r: RepoMatch| (r.owner@, r.repo@))
}

/// The order in which matched repositories are listed, as positions in
/// `repos`: a stable sort by the key; ties keep their order.
pub fn repo_order(repos: &Vec<RepoMatch>, sort: SortKey) -> (res: Vec<usize>)
    ensures
        match sort {
            SortKey::PushedAt => stable_by_stamp_desc(push_stamps(repos@), nat_seq(res@)),
            SortKey::Name => stable_by_pair(name_keys(repos@), nat_seq(res@)),
        },
{
    match sort {
        SortKey::PushedAt => {
            let mut stamps: Vec<Option<i128>> = Vec::new();
            let mut i: usize = 0;
            while i < repos.len()
                invariant
                    i <= repos@.len(),
                    stamps@ == push_stamps(repos@.take(i as int)),
                decreases repos@.len() - i,
            {
                stamps.push(repos[i].pushed_at);
                assert(push_stamps(repos@.take(i + 1)) =~= push_stamps(repos@.take(i as int)).push(
                    repos@[i as int].pushed_at,
                ));
                i = i + 1;
            }
            assert(repos@.take(repos@.len() as int) =~= repos@);
            stable_order_by_stamp_desc(&stamps)
        },
        SortKey::Name => {
            let mut keys: Vec<(Vec<char>, Vec<char>)> = Vec::new();
            let mut i: usize = 0;
            while i < repos.len()
                invariant
                    i <= repos@.len(),
                    pair_seqs(keys@) == name_keys(repos@.take(i as int)),
                decreases repos@.len() - i,
            {
                let k = (chars_of(repos[i].owner.as_str()), chars_of(repos[i].repo.as_str()));
                let ghost k0 = keys@;
                keys.push(k);
                assert(pair_seqs(keys@) =~= pair_seqs(k0).push((k.0@, k.1@)));
                assert(name_keys(repos@.take(i + 1)) =~= name_keys(repos@.take(i as int)).push(
                    (repos@[i as int].owner@, repos@[i as int].repo@),
                ));
                i = i + 1;
            }
            assert(repos@.take(repos@.len() as int) =~= repos@);
            stable_order_by_pair(&keys)
        },
    }
}

} // verus!
