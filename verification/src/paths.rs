//! On-disk layout of the fleet cache and of pens, as path strings.
//!
//! Paths are joined as `PathBuf::push` does on Unix: an absolute
//! component replaces the base, otherwise a `/` goes between the two
//! unless the base is empty or already ends in one.
//!
//! ```text
//! <cache>/meta.toml
//! <cache>/repos/<owner>/<repo>/{meta.toml, tracked.toml, checkout/}
//! <pens>/<name without "nave/">/pen.toml
//! <pens>/<name without "nave/">/repos/<owner>__<repo>/
//! <pens>/<name without "nave/">/state/<owner>__<repo>/{ops.toml, run-log.toml, logs/<run-id>/}
//! ```

use vstd::prelude::*;

use crate::text::{append, append_str, chars_of, has_prefix, starts_with, string_of};

verus! {

/// `comp` joined onto `base`.
pub open spec fn path_join(base: Seq<char>, comp: Seq<char>) -> Seq<char> {
    if comp.len() > 0 && comp[0] == '/' {
        comp
    } else if base.len() > 0 && base.last() != '/' {
        base + seq!['/'] + comp
    } else {
        base + comp
    }
}

pub fn join(base: &str, comp: &str) -> (res: String)
    ensures
        res@ == path_join(base@, comp@),
{
    let b = chars_of(base);
    let c = chars_of(comp);
    if c.len() > 0 && c[0] == '/' {
        return comp.to_owned();
    }
    let mut out = b.clone();
    if b.len() > 0 && b[b.len() - 1] != '/' {
        out.push('/');
    }
    append(&mut out, &c);
    string_of(&out)
}

// ---------------------------------------------------------------------------
// The fleet cache
// ---------------------------------------------------------------------------

/// The cache's own metadata file.
pub fn meta_path(cache_root: &str) -> (res: String)
    ensures
        res@ == path_join(cache_root@, "meta.toml"@),
{
    join(cache_root, "meta.toml")
}

pub open spec fn repo_dir_spec(cache_root: Seq<char>, owner: Seq<char>, repo: Seq<char>) -> Seq<char> {
    path_join(path_join(path_join(cache_root, "repos"@), owner), repo)
}

/// A repository's directory in the cache.
pub fn repo_dir(cache_root: &str, owner: &str, repo: &str) -> (res: String)
    ensures
        res@ == repo_dir_spec(cache_root@, owner@, repo@),
{
    let a = join(cache_root, "repos");
    let b = join(a.as_str(), owner);
    join(b.as_str(), repo)
}

/// A repository's checkout in the cache.
pub fn checkout_dir(cache_root: &str, owner: &str, repo: &str) -> (res: String)
    ensures
        res@ == path_join(repo_dir_spec(cache_root@, owner@, repo@), "checkout"@),
{
    let d = repo_dir(cache_root, owner, repo);
    join(d.as_str(), "checkout")
}

// ---------------------------------------------------------------------------
// Pens
// ---------------------------------------------------------------------------

/// A pen's name without its `nave/` prefix, which is its directory name.
pub open spec fn pen_dir_name(name: Seq<char>) -> Seq<char> {
    if starts_with(name, "nave/"@) {
        name.subrange(5, name.len() as int)
    } else {
        name
    }
}

pub open spec fn pen_dir_spec(root: Seq<char>, name: Seq<char>) -> Seq<char> {
    path_join(root, pen_dir_name(name))
}

/// A pen's directory.
pub fn pen_dir(root: &str, name: &str) -> (res: String)
    ensures
        res@ == pen_dir_spec(root@, name@),
{
    let n = chars_of(name);
    let prefix = chars_of("nave/");
    proof {
        reveal_strlit("nave/");
    }
    if has_prefix(&n, &prefix) {
        let rest = crate::text::slice(&n, 5, n.len());
        join(root, string_of(&rest).as_str())
    } else {
        join(root, name)
    }
}

/// Where a pen's repositories are cloned.
pub fn pen_repos_dir(root: &str, name: &str) -> (res: String)
    ensures
        res@ == path_join(pen_dir_spec(root@, name@), "repos"@),
{
    let d = pen_dir(root, name);
    join(d.as_str(), "repos")
}

/// A pen's definition file.
pub fn pen_toml_path(root: &str, name: &str) -> (res: String)
    ensures
        res@ == path_join(pen_dir_spec(root@, name@), "pen.toml"@),
{
    let d = pen_dir(root, name);
    join(d.as_str(), "pen.toml")
}

/// `<owner>__<repo>`, the directory name of a repository inside a pen.
pub open spec fn repo_slot(owner: Seq<char>, repo: Seq<char>) -> Seq<char> {
    owner + "__"@ + repo
}

fn repo_slot_exec(owner: &str, repo: &str) -> (res: String)
    ensures
        res@ == repo_slot(owner@, repo@),
{
    let mut out = chars_of(owner);
    append_str(&mut out, "__");
    append(&mut out, &chars_of(repo));
    string_of(&out)
}

/// Where one repository of a pen is cloned.
pub fn pen_repo_clone_dir(root: &str, name: &str, owner: &str, repo: &str) -> (res: String)
    ensures
        res@ == path_join(path_join(pen_dir_spec(root@, name@), "repos"@), repo_slot(owner@, repo@)),
{
    let d = pen_repos_dir(root, name);
    join(d.as_str(), repo_slot_exec(owner, repo).as_str())
}

/// A pen's `state/` directory.
pub fn pen_state_dir(root: &str, name: &str) -> (res: String)
    ensures
        res@ == path_join(pen_dir_spec(root@, name@), "state"@),
{
    let d = pen_dir(root, name);
    join(d.as_str(), "state")
}

pub open spec fn repo_state_dir_spec(root: Seq<char>, name: Seq<char>, owner: Seq<char>, repo: Seq<char>) -> Seq<char> {
    path_join(path_join(pen_dir_spec(root, name), "state"@), repo_slot(owner, repo))
}

/// One repository's state directory inside a pen.
pub fn repo_state_dir(root: &str, name: &str, owner: &str, repo: &str) -> (res: String)
    ensures
        res@ == repo_state_dir_spec(root@, name@, owner@, repo@),
{
    let d = pen_state_dir(root, name);
    join(d.as_str(), repo_slot_exec(owner, repo).as_str())
}

/// Which ops have applied to a repository.
pub fn ops_toml_path(root: &str, name: &str, owner: &str, repo: &str) -> (res: String)
    ensures
        res@ == path_join(repo_state_dir_spec(root@, name@, owner@, repo@), "ops.toml"@),
{
    let d = repo_state_dir(root, name, owner, repo);
    join(d.as_str(), "ops.toml")
}

/// The append-only history of rewrite attempts on a repository.
pub fn run_log_path(root: &str, name: &str, owner: &str, repo: &str) -> (res: String)
    ensures
        res@ == path_join(repo_state_dir_spec(root@, name@, owner@, repo@), "run-log.toml"@),
{
    let d = repo_state_dir(root, name, owner, repo);
    join(d.as_str(), "run-log.toml")
}

/// The log artefacts of one run on a repository.
pub fn logs_dir(root: &str, name: &str, owner: &str, repo: &str, run_id: &str) -> (res: String)
    ensures
        res@ == path_join(path_join(repo_state_dir_spec(root@, name@, owner@, repo@), "logs"@), run_id@),
{
    let d = repo_state_dir(root, name, owner, repo);
    let l = join(d.as_str(), "logs");
    join(l.as_str(), run_id)
}

} // verus!
