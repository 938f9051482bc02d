//! The round-trip check over the fleet cache: one result per tracked file
//! and a tally of the outcomes.

use vstd::prelude::*;

use crate::parse::{Format, RoundTrip, round_trip_label};

verus! {

/// One tracked file's result.
#[derive(Debug, Clone)]
pub struct FileResult {
    pub owner: String,
    pub repo: String,
    pub path: String,
    /// `toml` or `yaml`; none when the file is missing or of no known
    /// format.
    pub format: Option<String>,
    pub outcome: String,
    pub detail: Option<String>,
}

/// How many files had each outcome.
#[derive(Debug, Clone, Copy, Default)]
pub struct Totals {
    pub ok: usize,
    pub drift: usize,
    pub parse_failed: usize,
    pub render_failed: usize,
    pub reparse_failed: usize,
    pub unknown_format: usize,
    pub missing: usize,
}

/// Every file's result and the tally.
#[derive(Debug, Default)]
pub struct ValidationReport {
    pub results: Vec<FileResult>,
    pub totals: Totals,
}

/// A round trip's label and, for a failure, its error.
pub fn split_outcome(o: &RoundTrip) -> (res: (&'static str, Option<String>))
    ensures
        res.0@ == round_trip_label(*o),
        match o {
            RoundTrip::ParseFailed(e) | RoundTrip::RenderFailed(e) | RoundTrip::ReparseFailed(e) => res.1 == Some(*e),
            _ => res.1 is None,
        },
{
    match o {
        RoundTrip::Passed => ("ok", None),
        RoundTrip::SemanticDrift => ("drift", None),
        RoundTrip::ParseFailed(e) => ("parse_failed", Some(e.clone())),
        RoundTrip::RenderFailed(e) => ("render_failed", Some(e.clone())),
        RoundTrip::ReparseFailed(e) => ("reparse_failed", Some(e.clone())),
    }
}

/// What checking one tracked file found.
#[derive(Debug)]
pub enum FileCheck {
    /// Tracked in the cache but absent from the checkout.
    Missing,
    /// Its extension names no known format.
    UnknownFormat,
    /// Round-tripped in its format.
    Checked(Format, RoundTrip),
}

pub open spec fn format_name(f: Format) -> Seq<char> {
    match f {
        Format::Toml => "toml"@,
        Format::Yaml => "yaml"@,
    }
}

/// The tally with one more file of this outcome.
pub open spec fn tally(t: Totals, c: FileCheck) -> Totals {
    match c {
        FileCheck::Missing => Totals { missing: (t.missing + 1) as usize, ..t },
        FileCheck::UnknownFormat => Totals { unknown_format: (t.unknown_format + 1) as usize, ..t },
        FileCheck::Checked(_, RoundTrip::Passed) => Totals { ok: (t.ok + 1) as usize, ..t },
        FileCheck::Checked(_, RoundTrip::SemanticDrift) => Totals { drift: (t.drift + 1) as usize, ..t },
        FileCheck::Checked(_, RoundTrip::ParseFailed(_)) => Totals { parse_failed: (t.parse_failed + 1) as usize, ..t },
        FileCheck::Checked(_, RoundTrip::RenderFailed(_)) => Totals { render_failed: (t.render_failed + 1) as usize, ..t },
        FileCheck::Checked(_, RoundTrip::ReparseFailed(_)) => Totals {
            reparse_failed: (t.reparse_failed + 1) as usize,
            ..t
        },
    }
}

/// No count can overflow when one more file is tallied.
pub open spec fn room_to_tally(t: Totals) -> bool {
    &&& t.ok < usize::MAX
    &&& t.drift < usize::MAX
    &&& t.parse_failed < usize::MAX
    &&& t.render_failed < usize::MAX
    &&& t.reparse_failed < usize::MAX
    &&& t.unknown_format < usize::MAX
    &&& t.missing < usize::MAX
}

/// `r` is the result for a file at `path` of `owner/repo` with check `c`.
pub open spec fn result_for(r: FileResult, owner: Seq<char>, repo: Seq<char>, path: Seq<char>, c: FileCheck) -> bool {
    &&& r.owner@ == owner
    &&& r.repo@ == repo
    &&& r.path@ == path
    &&& match c {
        FileCheck::Missing => r.format is None && r.outcome@ == "missing"@ && (r.detail matches Some(d) && d@
            == "file tracked in cache but not found in checkout; run `nave fetch`"@),
        FileCheck::UnknownFormat => r.format is None && r.outcome@ == "unknown_format"@ && r.detail is None,
        FileCheck::Checked(f, o) => (r.format matches Some(n) && n@ == format_name(f)) && r.outcome@ == round_trip_label(o)
            && match o {
            RoundTrip::ParseFailed(e) | RoundTrip::RenderFailed(e) | RoundTrip::ReparseFailed(e) => r.detail == Some(e),
            _ => r.detail is None,
        },
    }
}

/// Adds one file's result to the report and tallies it.
pub fn record_file(report: &mut ValidationReport, owner: &str, repo: &str, path: &str, check: FileCheck)
    requires
        room_to_tally(old(report).totals),
    ensures
        final(report).totals == tally(old(report).totals, check),
        final(report).results@.len() == old(report).results@.len() + 1,
        final(report).results@.take(old(report).results@.len() as int) == old(report).results@,
        result_for(final(report).results@.last(), owner@, repo@, path@, check),
{
    let ghost r0 = report.results@;
    let result = match &check {
        FileCheck::Missing => {
            report.totals.missing = report.totals.missing + 1;
            FileResult {
                owner: owner.to_owned(),
                repo: repo.to_owned(),
                path: path.to_owned(),
                format: None,
                outcome: "missing".to_owned(),
                detail: Some("file tracked in cache but not found in checkout; run `nave fetch`".to_owned()),
            }
        },
        FileCheck::UnknownFormat => {
            report.totals.unknown_format = report.totals.unknown_format + 1;
            FileResult {
                owner: owner.to_owned(),
                repo: repo.to_owned(),
                path: path.to_owned(),
                format: None,
                outcome: "unknown_format".to_owned(),
                detail: None,
            }
        },
        FileCheck::Checked(f, o) => {
            match o {
                RoundTrip::Passed => report.totals.ok = report.totals.ok + 1,
                RoundTrip::SemanticDrift => report.totals.drift = report.totals.drift + 1,
                RoundTrip::ParseFailed(_) => report.totals.parse_failed = report.totals.parse_failed + 1,
                RoundTrip::RenderFailed(_) => report.totals.render_failed = report.totals.render_failed + 1,
                RoundTrip::ReparseFailed(_) => report.totals.reparse_failed = report.totals.reparse_failed + 1,
            }
            let (label, detail) = split_outcome(o);
            let name = match f {
                Format::Toml => "toml",
                Format::Yaml => "yaml",
            };
            FileResult {
                owner: owner.to_owned(),
                repo: repo.to_owned(),
                path: path.to_owned(),
                format: Some(name.to_owned()),
                outcome: label.to_owned(),
                detail,
            }
        },
    };
    report.results.push(result);
    assert(report.results@.take(r0.len() as int) =~= r0);
}

} // verus!
