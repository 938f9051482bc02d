//! Path matching for `tracked_paths`.
//!
//! Wraps `globset` with case-insensitivity handling so callers don't have to
//! think about it: with case-insensitivity on, patterns and paths are both
//! ASCII-lowercased before they meet.

use vstd::prelude::*;

use crate::address::strings_view;
use crate::text::{append, append_str, chars_of, string_of};

use globset::{GlobSet, GlobSetBuilder};

verus! {

#[verifier::external_type_specification]
#[verifier::external_body]
pub struct ExGlobSet(GlobSet);

#[verifier::external_type_specification]
#[verifier::external_body]
pub struct ExGlobSetBuilder(GlobSetBuilder);

/// Whether `globset` accepts `pattern` as a glob (`Glob::new` succeeds).
pub uninterp spec fn glob_valid(pattern: Seq<char>) -> bool;

/// Whether the glob `pattern` matches `path`, by `globset`'s rules.
pub uninterp spec fn glob_matches(pattern: Seq<char>, path: Seq<char>) -> bool;

/// The patterns added to a builder so far, in order.
pub uninterp spec fn builder_patterns(b: GlobSetBuilder) -> Seq<Seq<char>>;

/// The patterns a glob set was built from, in order.
pub uninterp spec fn set_patterns(s: GlobSet) -> Seq<Seq<char>>;

/// `globset::GlobSetBuilder::new`: a builder holding no patterns.
#[verifier::external_body]
fn builder_new() -> (res: GlobSetBuilder)
    ensures
        builder_patterns(res) == Seq::<Seq<char>>::empty(),
{
    GlobSetBuilder::new()
}

/// `globset::Glob::new` followed by `GlobSetBuilder::add`: compiles
/// `pattern` and, when it is a valid glob, appends it to the builder; an
/// invalid glob leaves the builder unchanged and reports `globset`'s error
/// text.
#[verifier::external_body]
fn builder_add(b: &mut GlobSetBuilder, pattern: &str) -> (res: Result<(), String>)
    ensures
        res is Ok <==> glob_valid(pattern@),
        res is Ok ==> builder_patterns(*final(b)) == builder_patterns(*old(b)).push(pattern@),
        res is Err ==> builder_patterns(*final(b)) == builder_patterns(*old(b)),
{
    match globset::Glob::new(pattern) {
        Ok(g) => {
            b.add(g);
            Ok(())
        },
        Err(e) => Err(e.to_string()),
    }
}

/// Whether `globset` builds one matcher from these valid globs
/// (`GlobSet::new` succeeds); it depends on the patterns alone.
pub uninterp spec fn glob_set_builds(patterns: Seq<Seq<char>>) -> bool;

/// `globset::GlobSetBuilder::build`: the set of the builder's patterns,
/// or `globset`'s error text when the combined matcher cannot be built;
/// a builder with no patterns always builds.
#[verifier::external_body]
fn builder_build(b: &GlobSetBuilder) -> (res: Result<GlobSet, String>)
    ensures
        res is Ok <==> glob_set_builds(builder_patterns(*b)),
        builder_patterns(*b).len() == 0 ==> res is Ok,
        res matches Ok(s) ==> set_patterns(s) == builder_patterns(*b),
{
    b.build().map_err(|e| e.to_string())
}

/// `globset::GlobSet::is_match`: true iff some glob of the set matches
/// `path`.
#[verifier::external_body]
fn set_is_match(set: &GlobSet, path: &str) -> (res: bool)
    ensures
        res == (exists|i: int|
            0 <= i < set_patterns(*set).len() && glob_matches(
                #[trigger] set_patterns(*set)[i],
                path@,
            )),
{
    set.is_match(path)
}

/// ASCII lowercase of a character; other characters are unchanged.
pub open spec fn lower_char(c: char) -> char {
    if 'A' <= c <= 'Z' {
        ((c as u32) + 32) as char
    } else {
        c
    }
}

pub open spec fn ascii_lowercase(s: Seq<char>) -> Seq<char> {
    s.map_values(|c: char| lower_char(c))
}

/// ASCII uppercase of a character; other characters are unchanged.
pub open spec fn upper_char(c: char) -> char {
    if 'a' <= c <= 'z' {
        ((c as u32) - 32) as char
    } else {
        c
    }
}

pub open spec fn ascii_uppercase(s: Seq<char>) -> Seq<char> {
    s.map_values(|c: char| upper_char(c))
}

proof fn lemma_lower_char_absorbs(c: char)
    ensures
        lower_char(lower_char(c)) == lower_char(c),
        lower_char(upper_char(c)) == lower_char(c),
{
    let u = c as u32;
    if 'A' <= c <= 'Z' {
        assert(65 <= u <= 90);
        let l = ((u + 32) as u32) as char;
        assert(l as u32 == u + 32);
        assert(!('A' <= l <= 'Z'));
    } else if 'a' <= c <= 'z' {
        assert(97 <= u <= 122);
        let up = ((u - 32) as u32) as char;
        assert(up as u32 == u - 32);
        assert('A' <= up <= 'Z');
        assert((((up as u32) + 32) as u32) as char == c);
    }
}

/// Lowercasing ignores an earlier lowercasing or uppercasing: the two
/// agree on every text up to ASCII case.
pub proof fn lemma_lowercase_absorbs(s: Seq<char>)
    ensures
        ascii_lowercase(ascii_lowercase(s)) == ascii_lowercase(s),
        ascii_lowercase(ascii_uppercase(s)) == ascii_lowercase(s),
{
    assert forall|i: int| 0 <= i < s.len() implies #[trigger] ascii_lowercase(ascii_lowercase(s))[i] == ascii_lowercase(s)[i]
        && ascii_lowercase(ascii_uppercase(s))[i] == ascii_lowercase(s)[i] by {
        lemma_lower_char_absorbs(s[i]);
    }
    assert(ascii_lowercase(ascii_lowercase(s)) =~= ascii_lowercase(s));
    assert(ascii_lowercase(ascii_uppercase(s)) =~= ascii_lowercase(s));
}

pub fn lower_char_exec(c: char) -> (res: char)
    ensures
        res == lower_char(c),
{
    if 'A' <= c && c <= 'Z' {
        let b: u8 = (c as u32) as u8;
        (b + 32) as char
    } else {
        c
    }
}

pub fn ascii_lowercase_exec(s: &str) -> (res: String)
    ensures
        res@ == ascii_lowercase(s@),
{
    let v = chars_of(s);
    let mut out: Vec<char> = Vec::new();
    let mut i: usize = 0;
    while i < v.len()
        invariant
            i <= v.len(),
            v@ == s@,
            out@ == ascii_lowercase(v@.take(i as int)),
        decreases v.len() - i,
    {
        out.push(lower_char_exec(v[i]));
        i = i + 1;
        assert(out@ =~= ascii_lowercase(v@.take(i as int)));
    }
    assert(v@.take(v.len() as int) =~= v@);
    string_of(&out)
}

/// The pattern a matcher compares against: the ASCII-lowercased pattern
/// when matching is case-insensitive.
pub open spec fn effective(p: Seq<char>, ci: bool) -> Seq<char> {
    if ci {
        ascii_lowercase(p)
    } else {
        p
    }
}

/// Why a matcher could not be built.
#[derive(Debug, Clone, PartialEq, Eq)]
pub enum PathMatcherError {
    /// A pattern is not a valid glob.
    InvalidGlob { pattern: String, reason: String },
    /// The combined matcher could not be built.
    Build { reason: String },
}

impl PathMatcherError {
    /// The error's text.
    pub fn message(&self) -> (res: String)
        ensures
            res@ == match self {
                PathMatcherError::InvalidGlob { pattern, .. } => "invalid glob: "@ + pattern@,
                PathMatcherError::Build { reason } => reason@,
            },
    {
        match self {
            PathMatcherError::InvalidGlob { pattern, .. } => {
                let mut out: Vec<char> = Vec::new();
                append_str(&mut out, "invalid glob: ");
                append(&mut out, &chars_of(pattern.as_str()));
                string_of(&out)
            },
            PathMatcherError::Build { reason } => reason.clone(),
        }
    }
}

/// The patterns a matcher compares against.
pub open spec fn effective_all(patterns: Seq<String>, ci: bool) -> Seq<Seq<char>> {
    patterns.map_values(|p: String| effective(p@, ci))
}

/// A set of globs over tracked paths.
pub struct PathMatcher {
    set: GlobSet,
    case_insensitive: bool,
}

impl PathMatcher {
    /// The globs the matcher holds, as given to `new`.
    pub closed spec fn patterns(&self) -> Seq<Seq<char>> {
        set_patterns(self.set)
    }

    pub closed spec fn is_case_insensitive(&self) -> bool {
        self.case_insensitive
    }

    /// Build a matcher over `patterns`; fails on the first pattern that is
    /// not a valid glob, or when `globset` cannot combine them.
    pub fn new(patterns: &[String], case_insensitive: bool) -> (res: Result<PathMatcher, PathMatcherError>)
        ensures
            res is Ok <==> (forall|k: int|
                0 <= k < patterns@.len() ==> glob_valid(effective(#[trigger] patterns@[k]@, case_insensitive)))
                && glob_set_builds(effective_all(patterns@, case_insensitive)),
            res matches Err(PathMatcherError::Build { .. }) ==> !glob_set_builds(
                effective_all(patterns@, case_insensitive),
            ),
            match res {
                Ok(m) => m.is_case_insensitive() == case_insensitive && m.patterns().len()
                    == patterns@.len() && forall|i: int|
                    0 <= i < patterns@.len() ==> #[trigger] m.patterns()[i] == effective(
                        patterns@[i]@,
                        case_insensitive,
                    ),
                Err(PathMatcherError::InvalidGlob { pattern, .. }) => exists|i: int|
                    0 <= i < patterns@.len() && #[trigger] patterns@[i]@ == pattern@
                        && !glob_valid(effective(pattern@, case_insensitive)) && forall|k: int|
                        0 <= k < i ==> glob_valid(effective(#[trigger] patterns@[k]@, case_insensitive)),
                Err(PathMatcherError::Build { .. }) => forall|k: int|
                    0 <= k < patterns@.len() ==> glob_valid(
                        effective(#[trigger] patterns@[k]@, case_insensitive),
                    ),
            },
    {
        let mut builder = builder_new();
        let mut i: usize = 0;
        while i < patterns.len()
            invariant
                i <= patterns@.len(),
                builder_patterns(builder).len() == i,
                forall|k: int|
                    0 <= k < i ==> #[trigger] builder_patterns(builder)[k] == effective(
                        patterns@[k]@,
                        case_insensitive,
                    ),
                forall|k: int|
                    0 <= k < i ==> glob_valid(effective(#[trigger] patterns@[k]@, case_insensitive)),
            decreases patterns@.len() - i,
        {
            let p = &patterns[i];
            let eff = if case_insensitive {
                ascii_lowercase_exec(p.as_str())
            } else {
                p.clone()
            };
            let ghost before = builder_patterns(builder);
            match builder_add(&mut builder, eff.as_str()) {
                Ok(()) => {},
                Err(reason) => {
                    return Err(PathMatcherError::InvalidGlob { pattern: p.clone(), reason });
                },
            }
            assert(builder_patterns(builder) == before.push(eff@));
            i = i + 1;
        }
        assert(builder_patterns(builder) =~= effective_all(patterns@, case_insensitive));
        match builder_build(&builder) {
            Ok(set) => Ok(PathMatcher { set, case_insensitive }),
            Err(reason) => Err(PathMatcherError::Build { reason }),
        }
    }

    /// Does some glob match `path` (lowercased first when matching is
    /// case-insensitive)?
    pub fn is_match(&self, path: &str) -> (res: bool)
        ensures
            res == exists|i: int|
                0 <= i < self.patterns().len() && glob_matches(
                    #[trigger] self.patterns()[i],
                    effective(path@, self.is_case_insensitive()),
                ),
    {
        if self.case_insensitive {
            let lowered = ascii_lowercase_exec(path);
            set_is_match(&self.set, lowered.as_str())
        } else {
            set_is_match(&self.set, path)
        }
    }
}

} // verus!
