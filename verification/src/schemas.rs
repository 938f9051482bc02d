//! Which JSON Schemas govern which tracked files, and the check of a
//! GitHub Actions `with:` block against the inputs an action declares.

use vstd::prelude::*;

use crate::json::{JVal, Json, JsonEntry, group_json_view, view_entries, view_list};
use crate::address::{key_index, lookup, find_key, lemma_key_index_from};
use crate::matcher::{ascii_lowercase, ascii_lowercase_exec};
use crate::text::{
    append, append_str, chars_of, contains_sub, decimal_exec, decimal, ends_with, find_from, has_sub,
    has_prefix, has_suffix, starts_with, string_of,
};

verus! {

broadcast use group_json_view;

// ---------------------------------------------------------------------------
// Schema identities
// ---------------------------------------------------------------------------

/// A schema the tool knows how to fetch and validate against.
#[derive(Debug, Clone, Copy, Hash, PartialEq, Eq, Structural, PartialOrd, Ord)]
pub enum SchemaId {
    Dependabot,
    GithubWorkflow,
    GithubAction,
    Pyproject,
}

pub open spec fn schema_name(id: SchemaId) -> Seq<char> {
    match id {
        SchemaId::Dependabot => "dependabot"@,
        SchemaId::GithubWorkflow => "github-workflow"@,
        SchemaId::GithubAction => "github-action"@,
        SchemaId::Pyproject => "pyproject"@,
    }
}

impl SchemaId {
    /// The schema's name, as used for its cache file.
    pub fn as_str(&self) -> (res: &'static str)
        ensures
            res@ == schema_name(*self),
    {
        match self {
            SchemaId::Dependabot => "dependabot",
            SchemaId::GithubWorkflow => "github-workflow",
            SchemaId::GithubAction => "github-action",
            SchemaId::Pyproject => "pyproject",
        }
    }

    /// Every schema, in declaration order.
    pub fn all() -> (res: Vec<SchemaId>)
        ensures
            res@ == seq![SchemaId::Dependabot, SchemaId::GithubWorkflow, SchemaId::GithubAction, SchemaId::Pyproject],
    {
        vec![SchemaId::Dependabot, SchemaId::GithubWorkflow, SchemaId::GithubAction, SchemaId::Pyproject]
    }
}

// ---------------------------------------------------------------------------
// Paths to schemas
// ---------------------------------------------------------------------------

/// The schema that governs a repository-relative path, ignoring ASCII case.
pub open spec fn schema_for_path_spec(relpath: Seq<char>) -> Option<SchemaId> {
    let p = ascii_lowercase(relpath);
    if p == "dependabot.yml"@ || p == "dependabot.yaml"@ || ends_with(p, "/dependabot.yml"@) || ends_with(
        p,
        "/dependabot.yaml"@,
    ) {
        Some(SchemaId::Dependabot)
    } else if starts_with(p, ".github/workflows/"@) && (ends_with(p, ".yml"@) || ends_with(p, ".yaml"@)) {
        Some(SchemaId::GithubWorkflow)
    } else if p == "action.yml"@ || p == "action.yaml"@ || ends_with(p, "/action.yml"@) || ends_with(
        p,
        "/action.yaml"@,
    ) {
        Some(SchemaId::GithubAction)
    } else if p == "pyproject.toml"@ || ends_with(p, "/pyproject.toml"@) {
        Some(SchemaId::Pyproject)
    } else {
        None
    }
}

/// Which schema governs a path does not depend on its ASCII case.
pub proof fn lemma_schema_ignores_case(p: Seq<char>)
    ensures
        schema_for_path_spec(crate::matcher::ascii_lowercase(p)) == schema_for_path_spec(p),
        schema_for_path_spec(crate::matcher::ascii_uppercase(p)) == schema_for_path_spec(p),
{
    crate::matcher::lemma_lowercase_absorbs(p);
}

fn is(p: &Vec<char>, s: &str) -> (res: bool)
    ensures
        res == (p@ == s@),
{
    crate::text::chars_eq(p, &chars_of(s))
}

fn ends(p: &Vec<char>, s: &str) -> (res: bool)
    ensures
        res == ends_with(p@, s@),
{
    has_suffix(p, &chars_of(s))
}

/// Maps a repository-relative path to the schema that governs it, if any.
pub fn schema_for_path(relpath: &str) -> (res: Option<SchemaId>)
    ensures
        res == schema_for_path_spec(relpath@),
{
    let lower = ascii_lowercase_exec(relpath);
    let p = chars_of(lower.as_str());
    if is(&p, "dependabot.yml") || is(&p, "dependabot.yaml") || ends(&p, "/dependabot.yml") || ends(
        &p,
        "/dependabot.yaml",
    ) {
        return Some(SchemaId::Dependabot);
    }
    if has_prefix(&p, &chars_of(".github/workflows/")) && (ends(&p, ".yml") || ends(&p, ".yaml")) {
        return Some(SchemaId::GithubWorkflow);
    }
    if is(&p, "action.yml") || is(&p, "action.yaml") || ends(&p, "/action.yml") || ends(&p, "/action.yaml") {
        return Some(SchemaId::GithubAction);
    }
    if is(&p, "pyproject.toml") || ends(&p, "/pyproject.toml") {
        return Some(SchemaId::Pyproject);
    }
    None
}

/// A tracked-path pattern calls for schema `id`: `dependabot` anywhere for
/// Dependabot, `.github/workflows` for both workflow and action schemas,
/// exactly `pyproject.toml` for pyproject (all ignoring ASCII case).
pub open spec fn pattern_needs(pattern: Seq<char>, id: SchemaId) -> bool {
    let p = ascii_lowercase(pattern);
    match id {
        SchemaId::Dependabot => contains_sub(p, "dependabot"@),
        SchemaId::GithubWorkflow => contains_sub(p, ".github/workflows"@),
        SchemaId::GithubAction => contains_sub(p, ".github/workflows"@),
        SchemaId::Pyproject => p == "pyproject.toml"@,
    }
}

pub open spec fn any_needs(patterns: Seq<String>, id: SchemaId) -> bool {
    exists|i: int| 0 <= i < patterns.len() && pattern_needs(#[trigger] patterns[i]@, id)
}

/// `ids` lists, in schema order and once each, the schemas that satisfy
/// `wanted`.
pub open spec fn lists_in_order(ids: Seq<SchemaId>, wanted: spec_fn(SchemaId) -> bool) -> bool {
    ids == seq![SchemaId::Dependabot, SchemaId::GithubWorkflow, SchemaId::GithubAction, SchemaId::Pyproject].filter(
        wanted,
    )
}

/// The schemas a list of patterns calls for are those either part calls
/// for, and an empty list calls for none: schemas for concatenated pattern
/// lists are the union of the parts' schemas.
pub proof fn lemma_schemas_union(a: Seq<String>, b: Seq<String>, id: SchemaId)
    ensures
        any_needs(a + b, id) == (any_needs(a, id) || any_needs(b, id)),
        !any_needs(Seq::<String>::empty(), id),
{
    let c = a + b;
    if any_needs(c, id) {
        let i = choose|i: int| 0 <= i < c.len() && pattern_needs(#[trigger] c[i]@, id);
        if i < a.len() {
            assert(c[i] == a[i]);
        } else {
            assert(c[i] == b[i - a.len()]);
        }
    }
    if any_needs(a, id) {
        let i = choose|i: int| 0 <= i < a.len() && pattern_needs(#[trigger] a[i]@, id);
        assert(c[i] == a[i]);
    }
    if any_needs(b, id) {
        let i = choose|i: int| 0 <= i < b.len() && pattern_needs(#[trigger] b[i]@, id);
        assert(c[i + a.len()] == b[i]);
    }
}

proof fn lemma_lower_plain(s: Seq<char>)
    requires
        forall|i: int| 0 <= i < s.len() ==> !('A' <= #[trigger] s[i] <= 'Z'),
    ensures
        ascii_lowercase(s) == s,
{
    assert(ascii_lowercase(s) =~= s);
}

/// The default tracked paths call for every schema: Dependabot, workflow,
/// action and pyproject.
pub proof fn lemma_default_paths_need_all(v: Seq<String>, id: SchemaId)
    requires
        crate::config::strings(v) == crate::config::default_tracked_paths_spec(),
    ensures
        any_needs(v, id),
{
    reveal_strlit("pyproject.toml");
    reveal_strlit("Cargo.toml");
    reveal_strlit(".pre-commit-config.yaml");
    reveal_strlit(".pre-commit-config.yml");
    reveal_strlit(".github/workflows/*.yml");
    reveal_strlit(".github/workflows/*.yaml");
    reveal_strlit(".github/dependabot.yml");
    reveal_strlit(".github/dependabot.yaml");
    reveal_strlit("dependabot");
    reveal_strlit(".github/workflows");
    let dv = crate::config::default_tracked_paths_spec();
    assert(crate::config::strings(v).len() == v.len());
    assert(v.len() == 8);
    assert(v[0]@ == dv[0] && v[4]@ == dv[4] && v[6]@ == dv[6]);
    let py = v[0]@;
    let wf = v[4]@;
    let db = v[6]@;
    lemma_lower_plain(py);
    lemma_lower_plain(wf);
    lemma_lower_plain(db);
    match id {
        SchemaId::Pyproject => {
            assert(pattern_needs(v[0]@, id));
        },
        SchemaId::GithubWorkflow | SchemaId::GithubAction => {
            assert(wf.subrange(0, 17) =~= ".github/workflows"@);
            assert(crate::text::is_sub_at(wf, ".github/workflows"@, 0));
            assert(pattern_needs(v[4]@, id));
        },
        SchemaId::Dependabot => {
            assert(db.subrange(8, 18) =~= "dependabot"@);
            assert(crate::text::is_sub_at(db, "dependabot"@, 8));
            assert(pattern_needs(v[6]@, id));
        },
    }
}

/// The schemas needed to validate the files the tracked-path patterns
/// select, in schema order, each once.
pub fn schemas_for_tracked(patterns: &Vec<String>) -> (res: Vec<SchemaId>)
    ensures
        lists_in_order(res@, |id: SchemaId| any_needs(patterns@, id)),
{
    let mut dependabot = false;
    let mut workflows = false;
    let mut pyproject = false;
    let mut i: usize = 0;
    while i < patterns.len()
        invariant
            i <= patterns@.len(),
            dependabot == exists|j: int| 0 <= j < i && pattern_needs(#[trigger] patterns@[j]@, SchemaId::Dependabot),
            workflows == exists|j: int| 0 <= j < i && pattern_needs(#[trigger] patterns@[j]@, SchemaId::GithubWorkflow),
            pyproject == exists|j: int| 0 <= j < i && pattern_needs(#[trigger] patterns@[j]@, SchemaId::Pyproject),
        decreases patterns@.len() - i,
    {
        let lower = ascii_lowercase_exec(patterns[i].as_str());
        let p = chars_of(lower.as_str());
        if has_sub(&p, &chars_of("dependabot")) {
            dependabot = true;
        }
        if has_sub(&p, &chars_of(".github/workflows")) {
            workflows = true;
        }
        if is(&p, "pyproject.toml") {
            pyproject = true;
        }
        i = i + 1;
    }
    let mut out: Vec<SchemaId> = Vec::new();
    if dependabot {
        out.push(SchemaId::Dependabot);
    }
    if workflows {
        out.push(SchemaId::GithubWorkflow);
        out.push(SchemaId::GithubAction);
    }
    if pyproject {
        out.push(SchemaId::Pyproject);
    }
    proof {
        let all = seq![SchemaId::Dependabot, SchemaId::GithubWorkflow, SchemaId::GithubAction, SchemaId::Pyproject];
        let f = |id: SchemaId| any_needs(patterns@, id);
        reveal_with_fuel(Seq::filter, 5);
        assert(f(SchemaId::Dependabot) == dependabot);
        assert(f(SchemaId::GithubWorkflow) == workflows);
        assert(f(SchemaId::GithubAction) == workflows);
        assert(f(SchemaId::Pyproject) == pyproject);
        assert(all.drop_last().drop_last().drop_last().drop_last() =~= Seq::<SchemaId>::empty());
        assert(out@ =~= all.filter(f));
    }
    out
}

// ---------------------------------------------------------------------------
// Action manifests and `with:` blocks
// ---------------------------------------------------------------------------

/// One input an action declares.
#[derive(Debug, Clone)]
pub struct ActionInput {
    pub description: Option<String>,
    pub required: bool,
    pub default: Option<String>,
    /// Present on actions that have deprecated this input.
    pub deprecation_message: Option<String>,
}

/// An action's manifest: its declared inputs, by name in sorted order,
/// each name once.
#[derive(Debug, Clone)]
pub struct ActionManifest {
    pub name: Option<String>,
    pub description: Option<String>,
    pub inputs: Vec<(String, ActionInput)>,
}

/// An action as a workflow step names it.
pub struct ActionRef<'a> {
    pub owner: &'a str,
    pub repo: &'a str,
    /// Whatever the step wrote: `v1`, `v1.3.0`, a full SHA, `main`, ...
    pub user_ref: &'a str,
}

/// A manifest fetched for a resolved commit.
pub struct FetchedAction {
    pub sha: String,
    pub path: String,
    pub manifest: ActionManifest,
}

/// The result of checking a `with:` block.
#[derive(Debug, Clone)]
pub struct InputCheck {
    pub missing_required: Vec<String>,
    pub unknown: Vec<String>,
    pub deprecated_used: Vec<(String, String)>,
}

impl InputCheck {
    /// Nothing required is missing and nothing unknown is passed;
    /// deprecated inputs do not count against it.
    pub fn is_ok(&self) -> (res: bool)
        ensures
            res == (self.missing_required@.len() == 0 && self.unknown@.len() == 0),
    {
        self.missing_required.len() == 0 && self.unknown.len() == 0
    }
}

pub open spec fn entry_keys(es: Seq<(Seq<char>, JVal)>) -> Seq<Seq<char>> {
    es.map_values(|e: (Seq<char>, JVal)| e.0)
}

pub open spec fn input_names(inputs: Seq<(String, ActionInput)>) -> Seq<Seq<char>> {
    inputs.map_values(|e: (String, ActionInput)| e.0@)
}

/// Required inputs without a default that the block does not pass, in
/// input order.
pub open spec fn missing_spec(inputs: Seq<(String, ActionInput)>, keys: Seq<Seq<char>>) -> Seq<Seq<char>>
    decreases inputs.len(),
{
    if inputs.len() == 0 {
        Seq::empty()
    } else {
        let rest = missing_spec(inputs.drop_last(), keys);
        let (k, spec) = inputs.last();
        if spec.required && spec.default is None && !keys.contains(k@) {
            rest.push(k@)
        } else {
            rest
        }
    }
}

/// Deprecated inputs that the block passes, with their messages, in input
/// order.
pub open spec fn deprecated_spec(inputs: Seq<(String, ActionInput)>, keys: Seq<Seq<char>>) -> Seq<(Seq<char>, Seq<char>)>
    decreases inputs.len(),
{
    if inputs.len() == 0 {
        Seq::empty()
    } else {
        let rest = deprecated_spec(inputs.drop_last(), keys);
        let (k, spec) = inputs.last();
        match spec.deprecation_message {
            Some(m) => if keys.contains(k@) {
                rest.push((k@, m@))
            } else {
                rest
            },
            None => rest,
        }
    }
}

/// Keys of the block that the action does not declare, in block order.
pub open spec fn unknown_spec(keys: Seq<Seq<char>>, names: Seq<Seq<char>>) -> Seq<Seq<char>>
    decreases keys.len(),
{
    if keys.len() == 0 {
        Seq::empty()
    } else {
        let rest = unknown_spec(keys.drop_last(), names);
        if names.contains(keys.last()) {
            rest
        } else {
            rest.push(keys.last())
        }
    }
}

pub open spec fn strs(v: Seq<String>) -> Seq<Seq<char>> {
    v.map_values(|s: String| s@)
}

pub open spec fn str_pairs(v: Seq<(String, String)>) -> Seq<(Seq<char>, Seq<char>)> {
    v.map_values(|p: (String, String)| (p.0@, p.1@))
}

fn block_has_key(entries: &Vec<JsonEntry>, k: &String) -> (res: bool)
    ensures
        res == entry_keys(view_entries(entries@)).contains(k@),
{
    let ghost es = view_entries(entries@);
    proof {
        lemma_key_index_from(es, k@, 0);
    }
    match find_key(entries, k) {
        Some(i) => {
            assert(entry_keys(es)[i as int] == k@);
            true
        },
        None => {
            assert forall|j: int| 0 <= j < entry_keys(es).len() implies entry_keys(es)[j] != k@ by {
                assert(entry_keys(es)[j] == es[j].0);
            }
            false
        },
    }
}

fn declares(inputs: &Vec<(String, ActionInput)>, k: &String) -> (res: bool)
    ensures
        res == input_names(inputs@).contains(k@),
{
    let mut i: usize = 0;
    while i < inputs.len()
        invariant
            i <= inputs@.len(),
            forall|j: int| 0 <= j < i ==> inputs@[j].0@ != k@,
        decreases inputs@.len() - i,
    {
        if inputs[i].0 == *k {
            assert(input_names(inputs@)[i as int] == k@);
            return true;
        }
        i = i + 1;
    }
    assert forall|j: int| 0 <= j < input_names(inputs@).len() implies input_names(inputs@)[j] != k@ by {
        assert(input_names(inputs@)[j] == inputs@[j].0@);
    }
    false
}

/// Checks a `with:` block, which must be a mapping, against an action's
/// declared inputs.
pub fn check_with_block(manifest: &ActionManifest, provided: &Json) -> (res: Result<InputCheck, String>)
    ensures
        match provided@ {
            JVal::Obj(es) => res matches Ok(c) && strs(c.missing_required@) == missing_spec(
                manifest.inputs@,
                entry_keys(es),
            ) && strs(c.unknown@) == unknown_spec(entry_keys(es), input_names(manifest.inputs@))
                && str_pairs(c.deprecated_used@) == deprecated_spec(manifest.inputs@, entry_keys(es)),
            _ => res matches Err(m) && m@ == "`with` block must be a mapping"@,
        },
{
    let entries = match provided {
        Json::Object(entries) => entries,
        _ => return Err("`with` block must be a mapping".to_owned()),
    };
    let ghost keys = entry_keys(view_entries(entries@));
    let inputs = &manifest.inputs;
    let mut missing: Vec<String> = Vec::new();
    let mut deprecated: Vec<(String, String)> = Vec::new();
    let mut i: usize = 0;
    while i < inputs.len()
        invariant
            i <= inputs@.len(),
            keys == entry_keys(view_entries(entries@)),
            strs(missing@) == missing_spec(inputs@.take(i as int), keys),
            str_pairs(deprecated@) == deprecated_spec(inputs@.take(i as int), keys),
        decreases inputs@.len() - i,
    {
        let (k, spec) = (&inputs[i].0, &inputs[i].1);
        let ghost pre = inputs@.take(i as int);
        assert(inputs@.take(i + 1).drop_last() =~= pre);
        let present = block_has_key(entries, k);
        if spec.required && spec.default.is_none() && !present {
            missing.push(k.clone());
        }
        assert(strs(missing@) =~= missing_spec(inputs@.take(i + 1), keys));
        if let Some(msg) = &spec.deprecation_message {
            if present {
                deprecated.push((k.clone(), msg.clone()));
            }
        }
        assert(str_pairs(deprecated@) =~= deprecated_spec(inputs@.take(i + 1), keys));
        i = i + 1;
    }
    assert(inputs@.take(inputs@.len() as int) =~= inputs@);
    let mut unknown: Vec<String> = Vec::new();
    let mut j: usize = 0;
    while j < entries.len()
        invariant
            j <= entries@.len(),
            keys == entry_keys(view_entries(entries@)),
            keys.len() == entries@.len(),
            strs(unknown@) == unknown_spec(keys.take(j as int), input_names(inputs@)),
        decreases entries@.len() - j,
    {
        assert(keys[j as int] == entries@[j as int].key@);
        assert(keys.take(j + 1).drop_last() =~= keys.take(j as int));
        if !declares(inputs, &entries[j].key) {
            unknown.push(entries[j].key.clone());
        }
        assert(strs(unknown@) =~= unknown_spec(keys.take(j + 1), input_names(inputs@)));
        j = j + 1;
    }
    assert(keys.take(entries@.len() as int) =~= keys);
    Ok(InputCheck { missing_required: missing, unknown, deprecated_used: deprecated })
}

/// A ref that is already a full commit SHA: forty hexadecimal digits.
pub open spec fn looks_like_sha_spec(s: Seq<char>) -> bool {
    s.len() == 40 && forall|i: int| 0 <= i < s.len() ==> is_hex(#[trigger] s[i])
}

pub open spec fn is_hex(c: char) -> bool {
    ('0' <= c <= '9') || ('a' <= c <= 'f') || ('A' <= c <= 'F')
}

pub fn looks_like_sha(s: &str) -> (res: bool)
    ensures
        res == looks_like_sha_spec(s@),
{
    let v = chars_of(s);
    if v.len() != 40 {
        return false;
    }
    let mut i: usize = 0;
    while i < v.len()
        invariant
            i <= v@.len(),
            v@ == s@,
            forall|j: int| 0 <= j < i ==> is_hex(#[trigger] v@[j]),
        decreases v@.len() - i,
    {
        let c = v[i];
        if !(('0' <= c && c <= '9') || ('a' <= c && c <= 'f') || ('A' <= c && c <= 'F')) {
            assert(!is_hex(s@[i as int]));
            return false;
        }
        i = i + 1;
    }
    true
}

// ---------------------------------------------------------------------------
// Workflow steps that use actions
// ---------------------------------------------------------------------------

/// A workflow step that uses an action as `owner/repo@ref`.
#[derive(Debug)]
pub struct ActionStep {
    pub job: String,
    pub index: usize,
    pub uses: String,
    pub owner: String,
    pub repo: String,
    pub git_ref: String,
    /// The step's `with:` block; an empty mapping when it has none.
    pub with: Json,
}

/// Model of an `ActionStep`: job, index, `uses`, owner, repo, ref, block.
pub type StepV = (Seq<char>, nat, Seq<char>, Seq<char>, Seq<char>, Seq<char>, JVal);

pub open spec fn step_view(s: ActionStep) -> StepV {
    (s.job@, s.index as nat, s.uses@, s.owner@, s.repo@, s.git_ref@, s.with@)
}

pub open spec fn count_char(s: Seq<char>, c: char) -> nat
    decreases s.len(),
{
    if s.len() == 0 {
        0
    } else {
        count_char(s.drop_last(), c) + if s.last() == c {
            1nat
        } else {
            0nat
        }
    }
}

/// The action a step uses, when it names one as `owner/repo@ref` with
/// exactly one `/` before the first `@`.
pub open spec fn step_of(job: Seq<char>, i: nat, step: JVal) -> Option<StepV> {
    match step {
        JVal::Obj(es) => match lookup(es, "uses"@) {
            Some(JVal::Str(u)) => match find_from(u, '@', 0) {
                Some(at) => {
                    let owner_repo = u.subrange(0, at);
                    let git_ref = u.subrange(at + 1, u.len() as int);
                    if count_char(owner_repo, '/') == 1 {
                        let sl = find_from(owner_repo, '/', 0)->0;
                        let with = match lookup(es, "with"@) {
                            Some(w) => w,
                            None => JVal::Obj(Seq::empty()),
                        };
                        Some(
                            (
                                job,
                                i,
                                u,
                                owner_repo.subrange(0, sl),
                                owner_repo.subrange(sl + 1, owner_repo.len() as int),
                                git_ref,
                                with,
                            ),
                        )
                    } else {
                        None
                    }
                },
                None => None,
            },
            _ => None,
        },
        _ => None,
    }
}

pub open spec fn job_steps(job: Seq<char>, steps: Seq<JVal>, n: nat) -> Seq<StepV>
    decreases n,
{
    if n == 0 || n > steps.len() {
        Seq::empty()
    } else {
        let rest = job_steps(job, steps, (n - 1) as nat);
        match step_of(job, (n - 1) as nat, steps[n - 1]) {
            Some(sv) => rest.push(sv),
            None => rest,
        }
    }
}

pub open spec fn steps_of_job(job: Seq<char>, v: JVal) -> Seq<StepV> {
    match v {
        JVal::Obj(es) => match lookup(es, "steps"@) {
            Some(JVal::Arr(steps)) => job_steps(job, steps, steps.len()),
            _ => Seq::empty(),
        },
        _ => Seq::empty(),
    }
}

pub open spec fn jobs_steps(jobs: Seq<(Seq<char>, JVal)>, n: nat) -> Seq<StepV>
    decreases n,
{
    if n == 0 || n > jobs.len() {
        Seq::empty()
    } else {
        jobs_steps(jobs, (n - 1) as nat) + steps_of_job(jobs[n - 1].0, jobs[n - 1].1)
    }
}

/// Every step of a workflow's jobs that uses an action, in document order.
pub open spec fn workflow_steps(v: JVal) -> Seq<StepV> {
    match v {
        JVal::Obj(es) => match lookup(es, "jobs"@) {
            Some(JVal::Obj(jobs)) => jobs_steps(jobs, jobs.len()),
            _ => Seq::empty(),
        },
        _ => Seq::empty(),
    }
}

fn get<'a>(entries: &'a Vec<JsonEntry>, key: &str) -> (res: Option<&'a Json>)
    ensures
        match res {
            Some(j) => lookup(view_entries(entries@), key@) == Some(j@),
            None => lookup(view_entries(entries@), key@) is None,
        },
{
    let k = key.to_owned();
    match find_key(entries, &k) {
        Some(i) => Some(&entries[i].value),
        None => None,
    }
}

fn count_char_exec(s: &Vec<char>, c: char) -> (res: usize)
    ensures
        res == count_char(s@, c),
{
    let mut n: usize = 0;
    let mut i: usize = 0;
    while i < s.len()
        invariant
            i <= s@.len(),
            n == count_char(s@.take(i as int), c),
            n <= i,
        decreases s@.len() - i,
    {
        assert(s@.take(i + 1).drop_last() =~= s@.take(i as int));
        if s[i] == c {
            n = n + 1;
        }
        i = i + 1;
    }
    assert(s@.take(s@.len() as int) =~= s@);
    n
}

proof fn lemma_count_char_absent(s: Seq<char>, c: char)
    requires
        forall|j: int| 0 <= j < s.len() ==> s[j] != c,
    ensures
        count_char(s, c) == 0,
    decreases s.len(),
{
    if s.len() > 0 {
        lemma_count_char_absent(s.drop_last(), c);
    }
}

fn step_exec(job: &String, i: usize, step: &Json) -> (res: Option<ActionStep>)
    ensures
        match res {
            Some(st) => step_of(job@, i as nat, step@) == Some(step_view(st)),
            None => step_of(job@, i as nat, step@) is None,
        },
{
    let entries = match step {
        Json::Object(es) => es,
        _ => return None,
    };
    let u = match get(entries, "uses") {
        Some(Json::Str(u)) => u,
        _ => return None,
    };
    let uv = chars_of(u.as_str());
    let at = match crate::text::find_from_exec(&uv, '@', 0) {
        Some(at) => at,
        None => return None,
    };
    assert(at < uv@.len());
    let owner_repo = crate::text::slice(&uv, 0, at);
    let git_ref = crate::text::slice(&uv, at + 1, uv.len());
    if count_char_exec(&owner_repo, '/') != 1 {
        return None;
    }
    let sl = match crate::text::find_from_exec(&owner_repo, '/', 0) {
        Some(sl) => sl,
        None => {
            proof {
                crate::text::lemma_find_from(owner_repo@, '/', 0);
                lemma_count_char_absent(owner_repo@, '/');
            }
            return None;
        },
    };
    let owner = crate::text::slice(&owner_repo, 0, sl);
    let repo = crate::text::slice(&owner_repo, sl + 1, owner_repo.len());
    let with = match get(entries, "with") {
        Some(w) => crate::json::json_clone(w),
        None => Json::Object(Vec::new()),
    };
    proof {
        assert(view_entries(Seq::<JsonEntry>::empty()) =~= Seq::empty());
    }
    Some(ActionStep {
        job: job.clone(),
        index: i,
        uses: u.clone(),
        owner: string_of(&owner),
        repo: string_of(&repo),
        git_ref: string_of(&git_ref),
        with,
    })
}

pub open spec fn steps_view(v: Seq<ActionStep>) -> Seq<StepV> {
    v.map_values(|s: ActionStep| step_view(s))
}

/// The steps of a workflow document that use an action, in document
/// order.
pub fn workflow_action_steps(v: &Json) -> (res: Vec<ActionStep>)
    ensures
        steps_view(res@) == workflow_steps(v@),
{
    let mut out: Vec<ActionStep> = Vec::new();
    let entries = match v {
        Json::Object(es) => es,
        _ => {
            assert(steps_view(out@) =~= Seq::empty());
            return out;
        },
    };
    let jobs = match get(entries, "jobs") {
        Some(Json::Object(jobs)) => jobs,
        _ => {
            assert(steps_view(out@) =~= Seq::empty());
            return out;
        },
    };
    let ghost jv = view_entries(jobs@);
    let mut j: usize = 0;
    while j < jobs.len()
        invariant
            j <= jobs@.len(),
            jv == view_entries(jobs@),
            steps_view(out@) == jobs_steps(jv, j as nat),
        decreases jobs@.len() - j,
    {
        let job_name = &jobs[j].key;
        assert(jv[j as int] == (job_name@, jobs@[j as int].value@));
        let ghost before = steps_view(out@);
        match &jobs[j].value {
            Json::Object(jes) => match get(jes, "steps") {
                Some(Json::Array(steps)) => {
                    let ghost sv = view_list(steps@);
                    let mut i: usize = 0;
                    while i < steps.len()
                        invariant
                            i <= steps@.len(),
                            sv == view_list(steps@),
                            steps_view(out@) == before + job_steps(job_name@, sv, i as nat),
                        decreases steps@.len() - i,
                    {
                        assert(sv[i as int] == steps@[i as int]@);
                        assert(sv.len() == steps@.len());
                        match step_exec(job_name, i, &steps[i]) {
                            Some(st) => {
                                let ghost stv = step_view(st);
                                assert(job_steps(job_name@, sv, (i + 1) as nat) == job_steps(job_name@, sv, i as nat).push(stv));
                                let ghost o0 = out@;
                                out.push(st);
                                assert(steps_view(out@) =~= steps_view(o0).push(stv));
                                assert(steps_view(out@) =~= before + job_steps(job_name@, sv, (i + 1) as nat));
                            },
                            None => {
                                assert(job_steps(job_name@, sv, (i + 1) as nat) == job_steps(job_name@, sv, i as nat));
                            },
                        }
                        i = i + 1;
                    }
                    assert(steps_of_job(job_name@, jobs@[j as int].value@) == job_steps(job_name@, sv, sv.len()));
                },
                _ => {
                    assert(steps_of_job(job_name@, jobs@[j as int].value@) =~= Seq::empty());
                    assert(steps_view(out@) =~= before + Seq::empty());
                },
            },
            _ => {
                assert(steps_view(out@) =~= before + Seq::empty());
            },
        }
        assert(jobs_steps(jv, (j + 1) as nat) == jobs_steps(jv, j as nat) + steps_of_job(jv[j as int].0, jv[j as int].1));
        j = j + 1;
    }
    out
}

/// `jobs.<job>.steps[<i>] uses=<uses>: `, the head of every finding on a
/// step.
pub open spec fn step_prefix(st: StepV) -> Seq<char> {
    "jobs."@ + st.0 + ".steps["@ + decimal(st.1) + "] uses="@ + st.2 + ": "@
}

/// What checking a step reports, given its action's manifest or why the
/// manifest could not be fetched.
pub open spec fn findings_spec(st: StepV, fetched: Result<ActionManifest, Seq<char>>) -> Seq<Seq<char>> {
    let pre = step_prefix(st);
    match fetched {
        Err(e) => seq![pre + "fetch failed: "@ + e],
        Ok(m) => match st.6 {
            JVal::Obj(es) => missing_spec(m.inputs@, entry_keys(es)).map_values(
                |k: Seq<char>| pre + "missing required input `"@ + k + "`"@,
            ) + unknown_spec(entry_keys(es), input_names(m.inputs@)).map_values(
                |k: Seq<char>| pre + "unknown input `"@ + k + "`"@,
            ) + deprecated_spec(m.inputs@, entry_keys(es)).map_values(
                |d: (Seq<char>, Seq<char>)| pre + "deprecated input `"@ + d.0 + "`: "@ + d.1,
            ),
            _ => seq![pre + "check failed: "@ + "`with` block must be a mapping"@],
        },
    }
}

fn push_finding(out: &mut Vec<String>, pre: &Vec<char>, a: &str, k: &String, quote: bool)
    ensures
        strs(final(out)@) == strs(old(out)@).push(
            if quote {
                pre@ + a@ + k@ + "`"@
            } else {
                pre@ + a@ + k@
            },
        ),
{
    let mut line = pre.clone();
    append_str(&mut line, a);
    append(&mut line, &chars_of(k.as_str()));
    if quote {
        append_str(&mut line, "`");
    }
    let ghost o0 = out@;
    out.push(string_of(&line));
    assert(strs(out@) =~= strs(o0).push(line@));
}

proof fn lemma_map_push<A, B>(s: Seq<A>, x: A, f: spec_fn(A) -> B)
    ensures
        s.push(x).map_values(f) =~= s.map_values(f).push(f(x)),
{
}

/// The findings on one step: why its manifest could not be fetched, or the
/// required inputs it misses, the unknown inputs it passes and the
/// deprecated inputs it uses.
pub fn step_findings(step: &ActionStep, fetched: &Result<ActionManifest, String>) -> (res: Vec<String>)
    ensures
        strs(res@) == findings_spec(
            step_view(*step),
            match fetched {
                Ok(m) => Ok(*m),
                Err(e) => Err(e@),
            },
        ),
{
    let ghost st = step_view(*step);
    let mut pre = chars_of("jobs.");
    append(&mut pre, &chars_of(step.job.as_str()));
    append_str(&mut pre, ".steps[");
    append(&mut pre, &decimal_exec(step.index));
    append_str(&mut pre, "] uses=");
    append(&mut pre, &chars_of(step.uses.as_str()));
    append_str(&mut pre, ": ");
    assert(pre@ == step_prefix(st));
    let mut out: Vec<String> = Vec::new();
    match fetched {
        Err(e) => {
            push_finding(&mut out, &pre, "fetch failed: ", e, false);
            assert(strs(out@) =~= findings_spec(st, Err(e@)));
        },
        Ok(m) => match check_with_block(m, &step.with) {
            Err(e) => {
                push_finding(&mut out, &pre, "check failed: ", &e, false);
                assert(strs(out@) =~= findings_spec(st, Ok(*m)));
            },
            Ok(check) => {
                let ghost es = match step.with@ {
                    JVal::Obj(es) => es,
                    _ => Seq::empty(),
                };
                let ghost f1 = |k: Seq<char>| pre@ + "missing required input `"@ + k + "`"@;
                let ghost f2 = |k: Seq<char>| pre@ + "unknown input `"@ + k + "`"@;
                let ghost f3 = |d: (Seq<char>, Seq<char>)| pre@ + "deprecated input `"@ + d.0 + "`: "@ + d.1;
                let mut i: usize = 0;
                while i < check.missing_required.len()
                    invariant
                        i <= check.missing_required@.len(),
                        strs(out@) == strs(check.missing_required@).take(i as int).map_values(f1),
                        f1 == (|k: Seq<char>| pre@ + "missing required input `"@ + k + "`"@),
                    decreases check.missing_required@.len() - i,
                {
                    push_finding(&mut out, &pre, "missing required input `", &check.missing_required[i], true);
                    assert(strs(check.missing_required@).take(i + 1) =~= strs(check.missing_required@).take(i as int).push(check.missing_required@[i as int]@));
                    proof {
                        lemma_map_push(strs(check.missing_required@).take(i as int), check.missing_required@[i as int]@, f1);
                    }
                    assert(strs(out@) =~= strs(check.missing_required@).take(i + 1).map_values(f1));
                    i = i + 1;
                }
                assert(strs(check.missing_required@).take(i as int) =~= strs(check.missing_required@));
                let ghost a1 = strs(out@);
                let mut j: usize = 0;
                while j < check.unknown.len()
                    invariant
                        j <= check.unknown@.len(),
                        strs(out@) == a1 + strs(check.unknown@).take(j as int).map_values(f2),
                        f2 == (|k: Seq<char>| pre@ + "unknown input `"@ + k + "`"@),
                    decreases check.unknown@.len() - j,
                {
                    push_finding(&mut out, &pre, "unknown input `", &check.unknown[j], true);
                    assert(strs(check.unknown@).take(j + 1) =~= strs(check.unknown@).take(j as int).push(check.unknown@[j as int]@));
                    proof {
                        lemma_map_push(strs(check.unknown@).take(j as int), check.unknown@[j as int]@, f2);
                    }
                    assert(strs(out@) =~= a1 + strs(check.unknown@).take(j + 1).map_values(f2));
                    j = j + 1;
                }
                assert(strs(check.unknown@).take(j as int) =~= strs(check.unknown@));
                let ghost a2 = strs(out@);
                let mut d: usize = 0;
                while d < check.deprecated_used.len()
                    invariant
                        d <= check.deprecated_used@.len(),
                        strs(out@) == a2 + str_pairs(check.deprecated_used@).take(d as int).map_values(f3),
                        f3 == (|d: (Seq<char>, Seq<char>)| pre@ + "deprecated input `"@ + d.0 + "`: "@ + d.1),
                    decreases check.deprecated_used@.len() - d,
                {
                    let (k, msg) = (&check.deprecated_used[d].0, &check.deprecated_used[d].1);
                    let mut line = pre.clone();
                    append_str(&mut line, "deprecated input `");
                    append(&mut line, &chars_of(k.as_str()));
                    append_str(&mut line, "`: ");
                    append(&mut line, &chars_of(msg.as_str()));
                    let ghost o0 = out@;
                    out.push(string_of(&line));
                    assert(strs(out@) =~= strs(o0).push(line@));
                    assert(str_pairs(check.deprecated_used@).take(d + 1) =~= str_pairs(check.deprecated_used@).take(d as int).push((k@, msg@)));
                    proof {
                        lemma_map_push(str_pairs(check.deprecated_used@).take(d as int), (k@, msg@), f3);
                    }
                    assert(strs(out@) =~= a2 + str_pairs(check.deprecated_used@).take(d + 1).map_values(f3));
                    d = d + 1;
                }
                assert(str_pairs(check.deprecated_used@).take(d as int) =~= str_pairs(check.deprecated_used@));
                assert(strs(out@) =~= findings_spec(st, Ok(*m)));
            },
        },
    }
    out
}

} // verus!
