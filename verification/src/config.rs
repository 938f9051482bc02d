//! The tool's configuration and its baked-in defaults.
//!
//! Precedence, lowest first: these defaults, the user config file,
//! `NAVE_`-prefixed environment variables, command-line overrides. The
//! layering itself happens where the files and the environment are read.

use vstd::prelude::*;

use crate::paths::path_join;
use crate::text::{chars_of, string_of};

verus! {

/// How to talk to GitHub.
#[derive(Debug, Clone)]
pub struct GithubConfig {
    pub username: Option<String>,
    pub use_gh_cli: bool,
    pub per_page: u32,
    pub repo_type: String,
    pub api_base: String,
}

impl Default for GithubConfig {
    fn default() -> (res: Self)
        ensures
            res.username is None,
            res.use_gh_cli,
            res.per_page == 100,
            res.repo_type@ == "owner"@,
            res.api_base@ == "https://api.github.com"@,
    {
        GithubConfig {
            username: None,
            use_gh_cli: true,
            per_page: 100,
            repo_type: "owner".to_owned(),
            api_base: "https://api.github.com".to_owned(),
        }
    }
}

/// Where the fleet cache lives; the default location when unset.
#[derive(Debug, Clone, Default)]
pub struct CacheConfig {
    pub root: Option<String>,
}

/// What to track in each repository.
#[derive(Debug, Clone)]
pub struct ScanConfig {
    pub tracked_paths: Vec<String>,
    pub case_insensitive: bool,
    pub exclude_forks: bool,
}

/// The tracked-path globs used when none are configured.
pub open spec fn default_tracked_paths_spec() -> Seq<Seq<char>> {
    seq![
        "pyproject.toml"@,
        "Cargo.toml"@,
        ".pre-commit-config.yaml"@,
        ".pre-commit-config.yml"@,
        ".github/workflows/*.yml"@,
        ".github/workflows/*.yaml"@,
        ".github/dependabot.yml"@,
        ".github/dependabot.yaml"@,
    ]
}

pub open spec fn strings(v: Seq<String>) -> Seq<Seq<char>> {
    v.map_values(|s: String| s@)
}

pub fn default_tracked_paths() -> (res: Vec<String>)
    ensures
        strings(res@) == default_tracked_paths_spec(),
{
    let v = vec![
        "pyproject.toml".to_owned(),
        "Cargo.toml".to_owned(),
        ".pre-commit-config.yaml".to_owned(),
        ".pre-commit-config.yml".to_owned(),
        ".github/workflows/*.yml".to_owned(),
        ".github/workflows/*.yaml".to_owned(),
        ".github/dependabot.yml".to_owned(),
        ".github/dependabot.yaml".to_owned(),
    ];
    assert(strings(v@) =~= default_tracked_paths_spec());
    v
}

impl Default for ScanConfig {
    fn default() -> (res: Self)
        ensures
            strings(res.tracked_paths@) == default_tracked_paths_spec(),
            res.case_insensitive,
            res.exclude_forks,
    {
        ScanConfig { tracked_paths: default_tracked_paths(), case_insensitive: true, exclude_forks: true }
    }
}

/// Where each schema is fetched from, by schema name, in name order.
#[derive(Debug, Clone)]
pub struct SchemasConfig {
    pub sources: Vec<(String, String)>,
}

pub open spec fn default_sources() -> Seq<(Seq<char>, Seq<char>)> {
    seq![
        ("dependabot"@, "https://json.schemastore.org/dependabot-2.0.json"@),
        ("github-action"@, "https://json.schemastore.org/github-action.json"@),
        ("github-workflow"@, "https://json.schemastore.org/github-workflow.json"@),
        ("pyproject"@, "https://json.schemastore.org/pyproject.json"@),
    ]
}

pub open spec fn pairs(v: Seq<(String, String)>) -> Seq<(Seq<char>, Seq<char>)> {
    v.map_values(|p: (String, String)| (p.0@, p.1@))
}

impl Default for SchemasConfig {
    fn default() -> (res: Self)
        ensures
            pairs(res.sources@) == default_sources(),
    {
        let sources = vec![
            ("dependabot".to_owned(), "https://json.schemastore.org/dependabot-2.0.json".to_owned()),
            ("github-action".to_owned(), "https://json.schemastore.org/github-action.json".to_owned()),
            ("github-workflow".to_owned(), "https://json.schemastore.org/github-workflow.json".to_owned()),
            ("pyproject".to_owned(), "https://json.schemastore.org/pyproject.json".to_owned()),
        ];
        assert(pairs(sources@) =~= default_sources());
        SchemasConfig { sources }
    }
}

/// Where pens live and how their branches are named.
#[derive(Debug, Clone, Default)]
pub struct PenConfig {
    /// Root directory of pens; under the home directory by default.
    pub root: Option<String>,
    /// Prefix of pen branch names; `nave/` by default.
    pub branch_prefix: Option<String>,
}

/// The whole configuration.
#[derive(Debug, Clone)]
pub struct NaveConfig {
    pub github: GithubConfig,
    pub cache: CacheConfig,
    pub scan: ScanConfig,
    pub schemas: SchemasConfig,
    pub pen: PenConfig,
}

impl Default for NaveConfig {
    fn default() -> (res: Self)
        ensures
            res.github.username is None,
            res.github.use_gh_cli,
            res.github.per_page == 100,
            res.github.repo_type@ == "owner"@,
            res.github.api_base@ == "https://api.github.com"@,
            res.cache.root is None,
            strings(res.scan.tracked_paths@) == default_tracked_paths_spec(),
            res.scan.case_insensitive,
            res.scan.exclude_forks,
            pairs(res.schemas.sources@) == default_sources(),
            res.pen.root is None,
            res.pen.branch_prefix is None,
    {
        NaveConfig {
            github: GithubConfig::default(),
            cache: CacheConfig { root: None },
            scan: ScanConfig::default(),
            schemas: SchemasConfig::default(),
            pen: PenConfig { root: None, branch_prefix: None },
        }
    }
}

/// The pen root: the configured one, else `.local/share/nave/pens` under
/// the home directory, which must be known.
pub open spec fn pen_root_spec(configured: Option<Seq<char>>, home: Option<Seq<char>>) -> Result<Seq<char>, Seq<char>> {
    match configured {
        Some(r) => Ok(r),
        None => match home {
            Some(h) => Ok(path_join(path_join(path_join(path_join(h, ".local"@), "share"@), "nave"@), "pens"@)),
            None => Err("could not locate home directory"@),
        },
    }
}

pub fn resolve_pen_root(cfg: &PenConfig, home: Option<String>) -> (res: Result<String, String>)
    ensures
        match pen_root_spec(
            match cfg.root {
                Some(r) => Some(r@),
                None => None,
            },
            match home {
                Some(h) => Some(h@),
                None => None,
            },
        ) {
            Ok(p) => res matches Ok(r) && r@ == p,
            Err(m) => res matches Err(e) && e@ == m,
        },
{
    match &cfg.root {
        Some(r) => Ok(r.clone()),
        None => match home {
            Some(h) => {
                let a = crate::paths::join(h.as_str(), ".local");
                let b = crate::paths::join(a.as_str(), "share");
                let c = crate::paths::join(b.as_str(), "nave");
                Ok(crate::paths::join(c.as_str(), "pens"))
            },
            None => Err("could not locate home directory".to_owned()),
        },
    }
}

} // verus!
