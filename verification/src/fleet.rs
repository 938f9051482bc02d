//! Discovering the fleet: which repositories to walk, which of their files
//! are paths, how the cache's record of them is merged, and how the
//! tool authenticates to GitHub.

use vstd::prelude::*;

use crate::holes::{lossy_text, utf8_lossy};
use crate::matcher::{effective, glob_matches, PathMatcher};
use crate::pen::{ins_pos, key_pos, kv_put, kv_view, kv_put_exec};
use crate::text::{
    append, chars_lt, chars_of, ends_with, find_from, find_from_exec, has_suffix, lemma_find_from, slice,
    string_of, trim, trim_exec,
};

verus! {

// ---------------------------------------------------------------------------
// GitHub's answers
// ---------------------------------------------------------------------------

/// A repository's owner.
#[derive(Debug, Clone)]
pub struct RepoOwner {
    pub login: String,
}

/// One entry of a recursive git tree listing.
#[derive(Debug, Clone)]
pub struct TreeEntry {
    pub path: String,
    /// `blob`, `tree` or `commit`.
    pub entry_type: String,
    pub sha: String,
}

/// A recursive git tree listing.
#[derive(Debug, Clone)]
pub struct TreeResponse {
    pub sha: String,
    pub tree: Vec<TreeEntry>,
    pub truncated: bool,
}

/// `owner/name` split at its first `/`; without one, no owner.
pub open spec fn split_full_name_spec(full: Seq<char>) -> (Seq<char>, Seq<char>) {
    match find_from(full, '/', 0) {
        Some(i) => (full.subrange(0, i), full.subrange(i + 1, full.len() as int)),
        None => (Seq::empty(), full),
    }
}

pub fn split_full_name(full_name: &str) -> (res: (String, String))
    ensures
        (res.0@, res.1@) == split_full_name_spec(full_name@),
{
    let v = chars_of(full_name);
    match crate::text::find_from_exec(&v, '/', 0) {
        Some(i) => (string_of(&crate::text::slice(&v, 0, i)), string_of(&crate::text::slice(&v, i + 1, v.len()))),
        None => (String::new(), full_name.to_owned()),
    }
}

/// Archived repositories are never walked; forks only when not excluded.
pub fn keep_repo(archived: bool, fork: bool, exclude_forks: bool) -> (res: bool)
    ensures
        res == (!archived && !(exclude_forks && fork)),
{
    !archived && !(exclude_forks && fork)
}

/// Discovery searches only repositories pushed since the last run when
/// there was one and it was for the same user.
pub fn is_incremental(last_pushed_known: bool, cached_user: &Option<String>, username: &str) -> (res: bool)
    ensures
        res == (last_pushed_known && (cached_user matches Some(u) && u@ == username@)),
{
    last_pushed_known && match cached_user {
        Some(u) => crate::text::chars_eq(&chars_of(u.as_str()), &chars_of(username)),
        None => false,
    }
}

/// The later of two optional push times (nanoseconds since the epoch).
pub fn later_push(cur: Option<i128>, pushed: Option<i128>) -> (res: Option<i128>)
    ensures
        res == match pushed {
            None => cur,
            Some(p) => match cur {
                Some(c) => if c >= p {
                    Some(c)
                } else {
                    Some(p)
                },
                None => Some(p),
            },
        },
{
    match pushed {
        None => cur,
        Some(p) => match cur {
            Some(c) => if c >= p {
                Some(c)
            } else {
                Some(p)
            },
            None => Some(p),
        },
    }
}

// ---------------------------------------------------------------------------
// Tracked files
// ---------------------------------------------------------------------------

/// Tracked files of a repository: path to blob SHA, in path order.
#[derive(Debug, Clone, Default)]
pub struct TrackedFiles {
    pub files: Vec<(String, String)>,
}

/// The map built by binding each pair in turn.
pub open spec fn put_all(m: Seq<(Seq<char>, Seq<char>)>, pairs: Seq<(Seq<char>, Seq<char>)>) -> Seq<(Seq<char>, Seq<char>)>
    decreases pairs.len(),
{
    if pairs.len() == 0 {
        m
    } else {
        kv_put(put_all(m, pairs.drop_last()), pairs.last().0, pairs.last().1)
    }
}

/// The value a sorted map holds for `k`.
pub open spec fn kv_get(m: Seq<(Seq<char>, Seq<char>)>, k: Seq<char>) -> Option<Seq<char>> {
    match key_pos(m, k, 0) {
        Some(i) => Some(m[i].1),
        None => None,
    }
}

/// The value of the last pair with key `k`.
pub open spec fn last_value(pairs: Seq<(Seq<char>, Seq<char>)>, k: Seq<char>) -> Option<Seq<char>>
    decreases pairs.len(),
{
    if pairs.len() == 0 {
        None
    } else if pairs.last().0 == k {
        Some(pairs.last().1)
    } else {
        last_value(pairs.drop_last(), k)
    }
}

proof fn lemma_key_pos(m: Seq<(Seq<char>, Seq<char>)>, k: Seq<char>, i: int)
    requires
        0 <= i,
    ensures
        match key_pos(m, k, i) {
            Some(j) => i <= j < m.len() && m[j].0 == k && forall|q: int| i <= q < j ==> m[q].0 != k,
            None => forall|q: int| i <= q < m.len() ==> m[q].0 != k,
        },
    decreases m.len() - i,
{
    if i < m.len() && m[i].0 != k {
        lemma_key_pos(m, k, i + 1);
    }
}

/// `key_pos` finds the first entry with the key.
proof fn lemma_key_pos_first(m: Seq<(Seq<char>, Seq<char>)>, k: Seq<char>, j: int)
    requires
        0 <= j < m.len(),
        m[j].0 == k,
        forall|q: int| 0 <= q < j ==> m[q].0 != k,
    ensures
        key_pos(m, k, 0) == Some(j),
{
    lemma_key_pos(m, k, 0);
    match key_pos(m, k, 0) {
        Some(x) => {
            if x < j {
                assert(m[x].0 != k);
            } else if x > j {
                assert(m[j].0 != k);
            }
        },
        None => {
            assert(m[j].0 != k);
        },
    }
}

proof fn lemma_key_pos_none(m: Seq<(Seq<char>, Seq<char>)>, k: Seq<char>)
    requires
        forall|q: int| 0 <= q < m.len() ==> m[q].0 != k,
    ensures
        key_pos(m, k, 0) is None,
{
    lemma_key_pos(m, k, 0);
    if let Some(x) = key_pos(m, k, 0) {
        assert(m[x].0 != k);
    }
}

/// Putting `k` gives `k` its new value and leaves every other key's value.
pub proof fn lemma_kv_put_get(m: Seq<(Seq<char>, Seq<char>)>, k: Seq<char>, v: Seq<char>, k2: Seq<char>)
    ensures
        kv_get(kv_put(m, k, v), k2) == if k2 == k {
            Some(v)
        } else {
            kv_get(m, k2)
        },
{
    lemma_key_pos(m, k, 0);
    lemma_key_pos(m, k2, 0);
    let r = kv_put(m, k, v);
    match key_pos(m, k, 0) {
        Some(i) => {
            assert(r == m.update(i, (k, v)));
            if k2 == k {
                lemma_key_pos_first(r, k, i);
            } else {
                match key_pos(m, k2, 0) {
                    Some(j) => {
                        assert forall|q: int| 0 <= q < j implies r[q].0 != k2 by {
                            if q != i {
                                assert(r[q] == m[q]);
                            }
                        }
                        assert(r[j] == m[j]);
                        lemma_key_pos_first(r, k2, j);
                    },
                    None => {
                        assert forall|q: int| 0 <= q < r.len() implies r[q].0 != k2 by {
                            if q != i {
                                assert(r[q] == m[q]);
                            }
                        }
                        lemma_key_pos_none(r, k2);
                    },
                }
            }
        },
        None => {
            let p = ins_pos(m, k, 0);
            lemma_ins_pos_bound(m, k, 0);
            assert(r == m.insert(p, (k, v)));
            if k2 == k {
                assert forall|q: int| 0 <= q < p implies r[q].0 != k2 by {
                    assert(r[q] == m[q]);
                }
                assert(r[p] == (k, v));
                lemma_key_pos_first(r, k, p);
            } else {
                match key_pos(m, k2, 0) {
                    Some(j) => {
                        let jj = if j < p { j } else { j + 1 };
                        assert(r[jj] == m[j]);
                        assert forall|q: int| 0 <= q < jj implies r[q].0 != k2 by {
                            if q < p {
                                assert(r[q] == m[q]);
                            } else if q > p {
                                assert(r[q] == m[q - 1]);
                            }
                        }
                        lemma_key_pos_first(r, k2, jj);
                    },
                    None => {
                        assert forall|q: int| 0 <= q < r.len() implies r[q].0 != k2 by {
                            if q < p {
                                assert(r[q] == m[q]);
                            } else if q > p {
                                assert(r[q] == m[q - 1]);
                            }
                        }
                        lemma_key_pos_none(r, k2);
                    },
                }
            }
        },
    }
}

proof fn lemma_ins_pos_bound(m: Seq<(Seq<char>, Seq<char>)>, k: Seq<char>, i: int)
    requires
        0 <= i <= m.len(),
    ensures
        i <= ins_pos(m, k, i) <= m.len(),
    decreases m.len() - i,
{
    if i < m.len() && !chars_lt(k, m[i].0) {
        lemma_ins_pos_bound(m, k, i + 1);
    }
}

/// Merging tracked files keeps every file the cache knew and gives each
/// file the scan found the SHA the scan found last.
pub proof fn lemma_merge_prefers_new(m: Seq<(Seq<char>, Seq<char>)>, pairs: Seq<(Seq<char>, Seq<char>)>, k: Seq<char>)
    ensures
        kv_get(put_all(m, pairs), k) == match last_value(pairs, k) {
            Some(v) => Some(v),
            None => kv_get(m, k),
        },
    decreases pairs.len(),
{
    if pairs.len() > 0 {
        lemma_merge_prefers_new(m, pairs.drop_last(), k);
        lemma_kv_put_get(put_all(m, pairs.drop_last()), pairs.last().0, pairs.last().1, k);
    }
}

/// Whether some glob of `patterns` matches `path` (lowercased first when
/// matching ignores case).
pub open spec fn globs_match(patterns: Seq<Seq<char>>, ci: bool, path: Seq<char>) -> bool {
    exists|i: int| 0 <= i < patterns.len() && glob_matches(#[trigger] patterns[i], effective(path, ci))
}

/// Blobs of the tree whose path a tracked glob matches, as (path, SHA), in
/// tree order.
pub open spec fn tracked_blobs_spec(tree: Seq<TreeEntry>, patterns: Seq<Seq<char>>, ci: bool) -> Seq<(Seq<char>, Seq<char>)>
    decreases tree.len(),
{
    if tree.len() == 0 {
        Seq::empty()
    } else {
        let rest = tracked_blobs_spec(tree.drop_last(), patterns, ci);
        let e = tree.last();
        if e.entry_type@ == "blob"@ && globs_match(patterns, ci, e.path@) {
            rest.push((e.path@, e.sha@))
        } else {
            rest
        }
    }
}

/// The tracked files a tree holds: its blobs whose path a tracked glob
/// matches, keyed by path (a later entry for the same path wins).
pub fn tracked_blobs(tree: &Vec<TreeEntry>, matcher: &PathMatcher) -> (res: TrackedFiles)
    ensures
        kv_view(res.files@) == put_all(
            Seq::empty(),
            tracked_blobs_spec(tree@, matcher.patterns(), matcher.is_case_insensitive()),
        ),
{
    let ghost pats = matcher.patterns();
    let ghost ci = matcher.is_case_insensitive();
    let mut files: Vec<(String, String)> = Vec::new();
    let mut i: usize = 0;
    while i < tree.len()
        invariant
            i <= tree@.len(),
            pats == matcher.patterns(),
            ci == matcher.is_case_insensitive(),
            kv_view(files@) == put_all(Seq::empty(), tracked_blobs_spec(tree@.take(i as int), pats, ci)),
        decreases tree@.len() - i,
    {
        let e = &tree[i];
        assert(tree@.take(i + 1).drop_last() =~= tree@.take(i as int));
        assert(tree@.take(i + 1).last() == *e);
        let blob = crate::text::chars_eq(&chars_of(e.entry_type.as_str()), &chars_of("blob"));
        if blob && matcher.is_match(e.path.as_str()) {
            kv_put_exec(&mut files, e.path.clone(), e.sha.clone());
            let ghost pre = tracked_blobs_spec(tree@.take(i as int), pats, ci);
            assert(tracked_blobs_spec(tree@.take(i + 1), pats, ci) == pre.push((e.path@, e.sha@)));
            assert(pre.push((e.path@, e.sha@)).drop_last() =~= pre);
        }
        i = i + 1;
    }
    assert(tree@.take(tree@.len() as int) =~= tree@);
    TrackedFiles { files }
}

/// The union of what was tracked and what is tracked now, the new SHA
/// winning: files that disappeared are kept for the fetch to reconcile.
pub fn merge_tracked(old: TrackedFiles, new: TrackedFiles) -> (res: TrackedFiles)
    ensures
        kv_view(res.files@) == put_all(kv_view(old.files@), kv_view(new.files@)),
{
    let mut files = old.files;
    let ghost base = kv_view(files@);
    let ghost nv = kv_view(new.files@);
    let mut i: usize = 0;
    while i < new.files.len()
        invariant
            i <= new.files@.len(),
            nv == kv_view(new.files@),
            kv_view(files@) == put_all(base, nv.take(i as int)),
        decreases new.files@.len() - i,
    {
        assert(nv.take(i + 1).drop_last() =~= nv.take(i as int));
        assert(nv.take(i + 1).last() == (new.files@[i as int].0@, new.files@[i as int].1@));
        kv_put_exec(&mut files, new.files[i].0.clone(), new.files[i].1.clone());
        i = i + 1;
    }
    assert(nv.take(new.files@.len() as int) =~= nv);
    TrackedFiles { files }
}

/// What a discovery run found.
#[derive(Debug, Clone)]
pub struct DiscoveryReport {
    pub repos_seen: usize,
    pub repos_with_tracked_files: usize,
    pub tracked_file_count: usize,
    pub auth_mode: String,
    pub incremental: bool,
}

// ---------------------------------------------------------------------------
// Authentication
// ---------------------------------------------------------------------------

/// How requests to GitHub are authenticated.
#[derive(Debug, Clone)]
pub enum AuthMode {
    /// A token, and where it came from: `token_env` or `gh`.
    Token { token: String, source: String },
    Anonymous,
}

impl AuthMode {
    /// Where the credentials came from, or `anonymous`.
    pub fn label(&self) -> (res: String)
        ensures
            res@ == match self {
                AuthMode::Token { source, .. } => source@,
                AuthMode::Anonymous => "anonymous"@,
            },
    {
        match self {
            AuthMode::Token { source, .. } => source.clone(),
            AuthMode::Anonymous => "anonymous".to_owned(),
        }
    }

    /// The token, if any.
    pub fn token(&self) -> (res: Option<&str>)
        ensures
            match self {
                AuthMode::Token { token, .. } => res matches Some(t) && t@ == token@,
                AuthMode::Anonymous => res is None,
            },
    {
        match self {
            AuthMode::Token { token, .. } => Some(token.as_str()),
            AuthMode::Anonymous => None,
        }
    }
}

/// The token `gh auth token` gave: none when it failed or printed only
/// whitespace.
pub open spec fn gh_token_spec(ok: bool, stdout: Seq<u8>) -> Option<Seq<char>> {
    if ok && trim(utf8_lossy(stdout)).len() > 0 {
        Some(trim(utf8_lossy(stdout)))
    } else {
        None
    }
}

pub fn gh_token_of(ok: bool, stdout: &[u8]) -> (res: Option<String>)
    ensures
        match gh_token_spec(ok, stdout@) {
            Some(t) => res matches Some(r) && r@ == t,
            None => res is None,
        },
{
    if !ok {
        return None;
    }
    let text = lossy_text(stdout);
    let t = trim_exec(&chars_of(text.as_str()));
    if t.len() == 0 {
        None
    } else {
        Some(string_of(&t))
    }
}

/// The authentication to use: a non-empty `NAVE_GITHUB_TOKEN` first, then,
/// when allowed, the token of the `gh` CLI, else none.
pub fn choose_auth(env_token: Option<String>, use_gh_cli: bool, gh_token: Option<String>) -> (res: AuthMode)
    ensures
        match env_token {
            Some(t) if t@.len() > 0 => res matches AuthMode::Token { token, source } && token == t && source@
                == "token_env"@,
            _ => match gh_token {
                Some(g) if use_gh_cli => res matches AuthMode::Token { token, source } && token == g && source@
                    == "gh"@,
                _ => res is Anonymous,
            },
        },
{
    if let Some(t) = env_token {
        if chars_of(t.as_str()).len() > 0 {
            return AuthMode::Token { token: t, source: "token_env".to_owned() };
        }
    }
    if use_gh_cli {
        if let Some(g) = gh_token {
            return AuthMode::Token { token: g, source: "gh".to_owned() };
        }
    }
    AuthMode::Anonymous
}

// ---------------------------------------------------------------------------
// Pulling checkouts
// ---------------------------------------------------------------------------

/// What to do with a repository's sparse checkout.
#[derive(Debug, Clone, Copy, PartialEq, Eq, Structural)]
pub enum PullAction {
    /// Nothing to do.
    Skip,
    /// No checkout yet: clone.
    FreshClone,
    /// A checkout exists: fetch, reset and resync its sparse paths.
    Update,
    /// The checkout is broken (no `.git`): clone it anew.
    Reclone,
}

/// The plan for a checkout, from whether its directory and its `.git`
/// exist.
pub fn decide_pull(checkout_exists: bool, git_dir_exists: bool) -> (res: PullAction)
    ensures
        res == if !checkout_exists {
            PullAction::FreshClone
        } else if !git_dir_exists {
            PullAction::Reclone
        } else {
            PullAction::Update
        },
{
    if !checkout_exists {
        PullAction::FreshClone
    } else if !git_dir_exists {
        PullAction::Reclone
    } else {
        PullAction::Update
    }
}

/// What a pull did across the cache.
#[derive(Debug, Clone, Copy, Default)]
pub struct PullReport {
    pub cloned: usize,
    pub updated: usize,
    pub skipped: usize,
    pub recloned: usize,
    pub failed: usize,
    pub sha_mismatches: usize,
}

/// The report with one more repository's result: its action and
/// mismatch count, or a failure.
pub open spec fn pull_tally(r: PullReport, res: Option<(PullAction, usize)>) -> PullReport {
    match res {
        None => PullReport { failed: (r.failed + 1) as usize, ..r },
        Some((a, m)) => {
            let r2 = PullReport { sha_mismatches: (r.sha_mismatches + m) as usize, ..r };
            match a {
                PullAction::FreshClone => PullReport { cloned: (r2.cloned + 1) as usize, ..r2 },
                PullAction::Update => PullReport { updated: (r2.updated + 1) as usize, ..r2 },
                PullAction::Reclone => PullReport { recloned: (r2.recloned + 1) as usize, ..r2 },
                PullAction::Skip => PullReport { skipped: (r2.skipped + 1) as usize, ..r2 },
            }
        },
    }
}

pub fn record_pull(report: &mut PullReport, res: Option<(PullAction, usize)>)
    requires
        old(report).cloned < usize::MAX,
        old(report).updated < usize::MAX,
        old(report).skipped < usize::MAX,
        old(report).recloned < usize::MAX,
        old(report).failed < usize::MAX,
        res matches Some((_, m)) ==> old(report).sha_mismatches + m <= usize::MAX,
    ensures
        *final(report) == pull_tally(*old(report), res),
{
    match res {
        None => {
            report.failed = report.failed + 1;
        },
        Some((a, m)) => {
            report.sha_mismatches = report.sha_mismatches + m;
            match a {
                PullAction::FreshClone => report.cloned = report.cloned + 1,
                PullAction::Update => report.updated = report.updated + 1,
                PullAction::Reclone => report.recloned = report.recloned + 1,
                PullAction::Skip => report.skipped = report.skipped + 1,
            }
        },
    }
}

/// Mismatches between the cached SHAs and what is on disk (`None` for a
/// file missing from the checkout), over the first `n` tracked files.
pub open spec fn mismatch_count(files: Seq<(Seq<char>, Seq<char>)>, seen: Seq<Option<Seq<char>>>, n: nat) -> nat
    decreases n,
{
    if n == 0 || n > files.len() || n > seen.len() {
        0
    } else {
        mismatch_count(files, seen, (n - 1) as nat) + match seen[n - 1] {
            None => 1nat,
            Some(a) => if a != files[n - 1].1 {
                1nat
            } else {
                0nat
            },
        }
    }
}

/// The SHAs that drifted, as (path, actual), in file order.
pub open spec fn drifted(files: Seq<(Seq<char>, Seq<char>)>, seen: Seq<Option<Seq<char>>>, n: nat) -> Seq<(Seq<char>, Seq<char>)>
    decreases n,
{
    if n == 0 || n > files.len() || n > seen.len() {
        Seq::empty()
    } else {
        let rest = drifted(files, seen, (n - 1) as nat);
        match seen[n - 1] {
            Some(a) => if a != files[n - 1].1 {
                rest.push((files[n - 1].0, a))
            } else {
                rest
            },
            None => rest,
        }
    }
}

pub open spec fn opt_strs(v: Seq<Option<String>>) -> Seq<Option<Seq<char>>> {
    v.map_values(|o: Option<String>| match o {
        Some(s) => Some(s@),
        None => None,
    })
}

/// Checks a checkout against the cached SHAs: how many files are missing
/// or drifted, and, when some drifted, the tracked files with the SHAs
/// found on disk. `seen` holds, per tracked file, the SHA of the file on
/// disk or none when it is missing.
pub fn reconcile_shas(known: &TrackedFiles, seen: &Vec<Option<String>>) -> (res: (usize, Option<TrackedFiles>))
    requires
        seen@.len() == known.files@.len(),
    ensures
        res.0 == mismatch_count(kv_view(known.files@), opt_strs(seen@), seen@.len() as nat),
        match res.1 {
            Some(m) => drifted(kv_view(known.files@), opt_strs(seen@), seen@.len() as nat).len() > 0 && kv_view(m.files@)
                == put_all(kv_view(known.files@), drifted(kv_view(known.files@), opt_strs(seen@), seen@.len() as nat)),
            None => drifted(kv_view(known.files@), opt_strs(seen@), seen@.len() as nat).len() == 0,
        },
{
    let ghost fv = kv_view(known.files@);
    let ghost sv = opt_strs(seen@);
    let mut mismatches: usize = 0;
    let mut updates: Vec<(String, String)> = Vec::new();
    let mut i: usize = 0;
    while i < known.files.len()
        invariant
            i <= known.files@.len(),
            seen@.len() == known.files@.len(),
            fv == kv_view(known.files@),
            sv == opt_strs(seen@),
            mismatches == mismatch_count(fv, sv, i as nat),
            mismatches <= i,
            kv_view(updates@) == drifted(fv, sv, i as nat),
        decreases known.files@.len() - i,
    {
        assert(fv[i as int] == (known.files@[i as int].0@, known.files@[i as int].1@));
        match &seen[i] {
            None => {
                mismatches = mismatches + 1;
            },
            Some(actual) => {
                if *actual != known.files[i].1 {
                    mismatches = mismatches + 1;
                    let ghost u0 = kv_view(updates@);
                    updates.push((known.files[i].0.clone(), actual.clone()));
                    assert(kv_view(updates@) =~= u0.push((fv[i as int].0, actual@)));
                }
            },
        }
        i = i + 1;
    }
    if updates.len() == 0 {
        return (mismatches, None);
    }
    let mut files: Vec<(String, String)> = Vec::new();
    let mut k: usize = 0;
    while k < known.files.len()
        invariant
            k <= known.files@.len(),
            kv_view(files@) == fv.take(k as int),
            fv == kv_view(known.files@),
        decreases known.files@.len() - k,
    {
        let ghost f0 = kv_view(files@);
        let e = (known.files[k].0.clone(), known.files[k].1.clone());
        assert((e.0@, e.1@) == fv[k as int]);
        files.push(e);
        assert(kv_view(files@) =~= f0.push(fv[k as int]));
        assert(fv.take(k + 1) =~= fv.take(k as int).push(fv[k as int]));
        assert(kv_view(files@) =~= fv.take(k + 1));
        k = k + 1;
    }
    assert(fv.take(fv.len() as int) =~= fv);
    let ghost uv = kv_view(updates@);
    let mut j: usize = 0;
    while j < updates.len()
        invariant
            j <= updates@.len(),
            uv == kv_view(updates@),
            kv_view(files@) == put_all(fv, uv.take(j as int)),
        decreases updates@.len() - j,
    {
        assert(uv.take(j + 1).drop_last() =~= uv.take(j as int));
        assert(uv.take(j + 1).last() == (updates@[j as int].0@, updates@[j as int].1@));
        kv_put_exec(&mut files, updates[j].0.clone(), updates[j].1.clone());
        j = j + 1;
    }
    assert(uv.take(uv.len() as int) =~= uv);
    (mismatches, Some(TrackedFiles { files }))
}

// ---------------------------------------------------------------------------
// Pagination
// ---------------------------------------------------------------------------

/// The marker that closes the part of a `Link` header naming the next page.
pub open spec fn rel_next() -> Seq<char> {
    seq!['r', 'e', 'l', '=', '"', 'n', 'e', 'x', 't', '"']
}

/// The comma-separated parts of `s` from position `i` on.
pub open spec fn comma_parts(s: Seq<char>, i: int) -> Seq<Seq<char>>
    decreases s.len() - i,
    when 0 <= i <= s.len()
{
    proof {
        lemma_find_from(s, ',', i);
    }
    match find_from(s, ',', i) {
        Some(j) => seq![s.subrange(i, j)] + comma_parts(s, j + 1),
        None => seq![s.subrange(i, s.len() as int)],
    }
}

/// A trimmed part that names the next page and holds both brackets.
pub open spec fn is_next_part(p: Seq<char>) -> bool {
    ends_with(p, rel_next()) && find_from(p, '<', 0) is Some && find_from(p, '>', 0) is Some
}

/// The first part, trimmed, that names the next page.
pub open spec fn next_part(parts: Seq<Seq<char>>) -> Option<Seq<char>>
    decreases parts.len(),
{
    if parts.len() == 0 {
        None
    } else if is_next_part(trim(parts[0])) {
        Some(trim(parts[0]))
    } else {
        next_part(parts.drop_first())
    }
}

/// Its first `>` stands after its first `<`.
pub open spec fn brackets_ordered(p: Seq<char>) -> bool {
    find_from(p, '<', 0).unwrap() < find_from(p, '>', 0).unwrap()
}

/// The next page's address can be cut out of the header.
pub open spec fn link_sliceable(link: Seq<char>) -> bool {
    match next_part(comma_parts(link, 0)) {
        Some(p) => brackets_ordered(p),
        None => true,
    }
}

/// The next page's address: what stands between the first `<` and the
/// first `>` of the first part that ends with `rel="next"`.
pub open spec fn next_link_spec(link: Seq<char>) -> Option<Seq<char>> {
    match next_part(comma_parts(link, 0)) {
        Some(p) => Some(
            p.subrange(find_from(p, '<', 0).unwrap() + 1, find_from(p, '>', 0).unwrap()),
        ),
        None => None,
    }
}

fn rel_next_exec() -> (res: Vec<char>)
    ensures
        res@ == rel_next(),
{
    let v = vec!['r', 'e', 'l', '=', '"', 'n', 'e', 'x', 't', '"'];
    assert(v@ =~= rel_next());
    v
}

/// Whether `next_link` can cut the next page's address out of this header.
pub fn link_is_sliceable(link: &str) -> (res: bool)
    ensures
        res == link_sliceable(link@),
{
    match first_next_part(link) {
        Some(p) => {
            proof {
                lemma_find_from(p@, '<', 0);
                lemma_find_from(p@, '>', 0);
            }
            let lt = find_from_exec(&p, '<', 0).unwrap();
            let gt = find_from_exec(&p, '>', 0).unwrap();
            lt < gt
        },
        None => true,
    }
}

/// The first part of the header, trimmed, that names the next page.
fn first_next_part(link: &str) -> (res: Option<Vec<char>>)
    ensures
        match res {
            Some(p) => next_part(comma_parts(link@, 0)) == Some(p@) && is_next_part(p@),
            None => next_part(comma_parts(link@, 0)) is None,
        },
{
    let v = chars_of(link);
    let marker = rel_next_exec();
    let mut i: usize = 0;
    loop
        invariant
            v@ == link@,
            marker@ == rel_next(),
            i <= v@.len(),
            next_part(comma_parts(v@, 0)) == next_part(comma_parts(v@, i as int)),
        decreases v@.len() - i,
    {
        proof {
            lemma_find_from(v@, ',', i as int);
        }
        let end = match find_from_exec(&v, ',', i) {
            Some(j) => j,
            None => v.len(),
        };
        let part = trim_exec(&slice(&v, i, end));
        let ghost parts = comma_parts(v@, i as int);
        assert(parts[0] == v@.subrange(i as int, end as int));
        assert(parts.drop_first() == if end < v@.len() {
            comma_parts(v@, end + 1)
        } else {
            Seq::<Seq<char>>::empty()
        }) by {
            if end < v@.len() {
                assert(parts.drop_first() =~= comma_parts(v@, end + 1));
            } else {
                assert(parts.drop_first() =~= Seq::<Seq<char>>::empty());
            }
        }
        if has_suffix(&part, &marker) && find_from_exec(&part, '<', 0).is_some() && find_from_exec(
            &part,
            '>',
            0,
        ).is_some() {
            return Some(part);
        }
        if end == v.len() {
            assert(next_part(Seq::<Seq<char>>::empty()) is None);
            return None;
        }
        i = end + 1;
    }
}

/// `Link: <…>; rel="next", …`: the address of the next page, if any.
pub fn next_link(link: &str) -> (res: Option<String>)
    requires
        link_sliceable(link@),
    ensures
        match res {
            Some(u) => next_link_spec(link@) == Some(u@),
            None => next_link_spec(link@) is None,
        },
{
    match first_next_part(link) {
        Some(p) => {
            proof {
                lemma_find_from(p@, '<', 0);
                lemma_find_from(p@, '>', 0);
            }
            let lt = find_from_exec(&p, '<', 0).unwrap();
            let gt = find_from_exec(&p, '>', 0).unwrap();
            Some(string_of(&slice(&p, lt + 1, gt)))
        },
        None => None,
    }
}

} // verus!
