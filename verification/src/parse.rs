//! Formats of tracked config files, and the parse / render / re-parse
//! round trip that checks a file survives the pipeline.

use vstd::prelude::*;

use crate::matcher::{ascii_lowercase, ascii_lowercase_exec};
use crate::text::{append, append_str, chars_of, string_of};
use vstd::utf8::encode_utf8;

verus! {

/// A config file format.
#[derive(Debug, Clone, Copy, PartialEq, Eq, Hash)]
pub enum Format {
    Toml,
    Yaml,
}

/// Index of the last `c` in `p[..end]`, or -1.
pub open spec fn last_index_of(p: Seq<char>, c: char, end: int) -> int
    decreases end,
{
    if end <= 0 {
        -1
    } else if p[end - 1] == c {
        end - 1
    } else {
        last_index_of(p, c, end - 1)
    }
}

/// The final component of `p[..end]`, skipping trailing separators and
/// `.` components; none when it is `..` or there is none.
pub open spec fn file_name_upto(p: Seq<char>, end: int) -> Option<Seq<char>>
    decreases end,
{
    if end <= 0 {
        None
    } else if p[end - 1] == '/' {
        file_name_upto(p, end - 1)
    } else {
        let start = last_index_of(p, '/', end) + 1;
        let comp = p.subrange(start, end);
        if comp == "."@ {
            if 0 <= start < end {
                file_name_upto(p, start)
            } else {
                None
            }
        } else if comp == ".."@ {
            None
        } else {
            Some(comp)
        }
    }
}

/// The file name of a path, as `Path::file_name` gives it.
pub open spec fn file_name(p: Seq<char>) -> Option<Seq<char>> {
    file_name_upto(p, p.len() as int)
}

/// The extension of a file name: what follows its last `.`, unless that
/// dot is the first character or there is none.
pub open spec fn extension_of(name: Seq<char>) -> Option<Seq<char>> {
    let d = last_index_of(name, '.', name.len() as int);
    if d <= 0 {
        None
    } else {
        Some(name.subrange(d + 1, name.len() as int))
    }
}

pub open spec fn format_of_path(p: Seq<char>) -> Option<Format> {
    match file_name(p) {
        None => None,
        Some(name) => match extension_of(name) {
            None => None,
            Some(ext) => if ascii_lowercase(ext) == "toml"@ {
                Some(Format::Toml)
            } else if ascii_lowercase(ext) == "yaml"@ || ascii_lowercase(ext) == "yml"@ {
                Some(Format::Yaml)
            } else {
                None
            },
        },
    }
}

proof fn lemma_last_index_of(p: Seq<char>, c: char, end: int)
    requires
        0 <= end <= p.len(),
    ensures
        -1 <= last_index_of(p, c, end) < end,
        last_index_of(p, c, end) >= 0 ==> p[last_index_of(p, c, end)] == c,
    decreases end,
{
    if end > 0 && p[end - 1] != c {
        lemma_last_index_of(p, c, end - 1);
    }
}

fn last_index_exec(p: &Vec<char>, c: char, end: usize) -> (res: Option<usize>)
    requires
        end <= p@.len(),
    ensures
        match res {
            Some(i) => i as int == last_index_of(p@, c, end as int) && i < end && p@[i as int] == c,
            None => last_index_of(p@, c, end as int) == -1,
        },
{
    proof {
        lemma_last_index_of(p@, c, end as int);
    }
    let mut e: usize = end;
    while e > 0
        invariant
            e <= end,
            end <= p@.len(),
            last_index_of(p@, c, end as int) == last_index_of(p@, c, e as int),
        decreases e,
    {
        if p[e - 1] == c {
            return Some(e - 1);
        }
        e = e - 1;
    }
    None
}

fn chars_equal_str(a: &Vec<char>, b: &str) -> (res: bool)
    ensures
        res == (a@ == b@),
{
    let bv = chars_of(b);
    crate::text::chars_eq(a, &bv)
}

/// The file name of a path.
pub fn file_name_exec(path: &str) -> (res: Option<String>)
    ensures
        match res {
            Some(n) => file_name(path@) == Some(n@),
            None => file_name(path@) is None,
        },
{
    let p = chars_of(path);
    let mut end: usize = p.len();
    while end > 0
        invariant
            end <= p@.len(),
            p@ == path@,
            file_name(path@) == file_name_upto(p@, end as int),
        decreases end,
    {
        if p[end - 1] == '/' {
            end = end - 1;
        } else {
            let start: usize = match last_index_exec(&p, '/', end) {
                Some(i) => i + 1,
                None => 0,
            };
            assert(start < end);
            let comp = crate::text::slice(&p, start, end);
            if chars_equal_str(&comp, ".") {
                end = start;
            } else if chars_equal_str(&comp, "..") {
                return None;
            } else {
                return Some(string_of(&comp));
            }
        }
    }
    None
}

impl Format {
    /// Detects the format from a path's extension, ignoring ASCII case:
    /// `toml` for TOML, `yaml` or `yml` for YAML.
    pub fn from_path(path: &str) -> (res: Option<Format>)
        ensures
            res == format_of_path(path@),
    {
        let name = match file_name_exec(path) {
            Some(n) => n,
            None => return None,
        };
        let nv = chars_of(name.as_str());
        let d = match last_index_exec(&nv, '.', nv.len()) {
            Some(d) => d,
            None => return None,
        };
        if d == 0 {
            return None;
        }
        let ext = string_of(&crate::text::slice(&nv, d + 1, nv.len()));
        let lower = ascii_lowercase_exec(ext.as_str());
        let lv = chars_of(lower.as_str());
        if chars_equal_str(&lv, "toml") {
            Some(Format::Toml)
        } else if chars_equal_str(&lv, "yaml") || chars_equal_str(&lv, "yml") {
            Some(Format::Yaml)
        } else {
            None
        }
    }
}

// ---------------------------------------------------------------------------
// Documents and the round trip
// ---------------------------------------------------------------------------

#[verifier::external_type_specification]
#[verifier::external_body]
pub struct ExTomlValue(toml::Value);

#[verifier::external_type_specification]
#[verifier::external_body]
pub struct ExYamlValue(serde_norway::Value);

/// A parsed document, carried as the format's own value.
#[derive(Debug)]
pub enum Document {
    Toml(toml::Value),
    Yaml(serde_norway::Value),
}

/// The text `std::str::Utf8Error` displays for bytes that are not UTF-8.
pub uninterp spec fn utf8_error_text(bytes: Seq<u8>) -> Seq<char>;

/// What `toml::from_str::<toml::Value>` reports for a text it refuses;
/// none when it parses.
pub uninterp spec fn toml_parse_error(text: Seq<char>) -> Option<Seq<char>>;

/// What `serde_norway::from_slice::<serde_norway::Value>` reports for bytes
/// it refuses; none when they parse.
pub uninterp spec fn yaml_parse_error(bytes: Seq<u8>) -> Option<Seq<char>>;

/// The value `toml::from_str::<toml::Value>` reads from a text it accepts.
pub uninterp spec fn toml_value_of(text: Seq<char>) -> toml::Value;

/// The value `serde_norway::from_slice::<serde_norway::Value>` reads from
/// bytes it accepts.
pub uninterp spec fn yaml_value_of(bytes: Seq<u8>) -> serde_norway::Value;

/// What `toml::to_string` gives for a value: its text, or its error's text.
pub uninterp spec fn toml_rendered(v: toml::Value) -> Result<Seq<char>, Seq<char>>;

/// What `serde_norway::to_string` gives for a value: its text, or its
/// error's text.
pub uninterp spec fn yaml_rendered(v: serde_norway::Value) -> Result<Seq<char>, Seq<char>>;

/// What `==` on `toml::Value` answers.
pub uninterp spec fn toml_equal(a: toml::Value, b: toml::Value) -> bool;

/// What `==` on `serde_norway::Value` answers.
pub uninterp spec fn yaml_equal(a: serde_norway::Value, b: serde_norway::Value) -> bool;

/// `std::str::from_utf8`: the text the bytes encode, or, when they are not
/// UTF-8, the error's text.
#[verifier::external_body]
fn utf8_str(bytes: &[u8]) -> (res: Result<String, String>)
    ensures
        match res {
            Ok(t) => encode_utf8(t@) == bytes@,
            Err(e) => e@ == utf8_error_text(bytes@) && forall|cs: Seq<char>| encode_utf8(cs) != bytes@,
        },
{
    match std::str::from_utf8(bytes) {
        Ok(t) => Ok(t.to_owned()),
        Err(e) => Err(e.to_string()),
    }
}

/// `toml::from_str` into a `toml::Value`: the value read, or the error's
/// text.
#[verifier::external_body]
fn toml_from_str(text: &str) -> (res: Result<toml::Value, String>)
    ensures
        match res {
            Ok(v) => toml_parse_error(text@) is None && v == toml_value_of(text@),
            Err(e) => toml_parse_error(text@) == Some(e@),
        },
{
    toml::from_str::<toml::Value>(text).map_err(|e| e.to_string())
}

/// `serde_norway::from_slice` into a `serde_norway::Value`: the value
/// read, or the error's text.
#[verifier::external_body]
fn yaml_from_slice(bytes: &[u8]) -> (res: Result<serde_norway::Value, String>)
    ensures
        match res {
            Ok(v) => yaml_parse_error(bytes@) is None && v == yaml_value_of(bytes@),
            Err(e) => yaml_parse_error(bytes@) == Some(e@),
        },
{
    serde_norway::from_slice::<serde_norway::Value>(bytes).map_err(|e| e.to_string())
}

/// `toml::to_string`: the value's text, or the error's text.
#[verifier::external_body]
fn toml_to_string(v: &toml::Value) -> (res: Result<String, String>)
    ensures
        match res {
            Ok(t) => toml_rendered(*v) == Ok::<Seq<char>, Seq<char>>(t@),
            Err(e) => toml_rendered(*v) == Err::<Seq<char>, Seq<char>>(e@),
        },
{
    toml::to_string(v).map_err(|e| e.to_string())
}

/// `serde_norway::to_string`: the value's text, or the error's text.
#[verifier::external_body]
fn yaml_to_string(v: &serde_norway::Value) -> (res: Result<String, String>)
    ensures
        match res {
            Ok(t) => yaml_rendered(*v) == Ok::<Seq<char>, Seq<char>>(t@),
            Err(e) => yaml_rendered(*v) == Err::<Seq<char>, Seq<char>>(e@),
        },
{
    serde_norway::to_string(v).map_err(|e| e.to_string())
}

/// `==` on `toml::Value`.
#[verifier::external_body]
fn toml_values_equal(a: &toml::Value, b: &toml::Value) -> (res: bool)
    ensures
        res == toml_equal(*a, *b),
{
    a == b
}

/// `==` on `serde_norway::Value`.
#[verifier::external_body]
fn yaml_values_equal(a: &serde_norway::Value, b: &serde_norway::Value) -> (res: bool)
    ensures
        res == yaml_equal(*a, *b),
{
    a == b
}

/// Why bytes do not parse as a document of the format, if they do not:
/// TOML must be UTF-8 first.
pub open spec fn parse_error_spec(bytes: Seq<u8>, fmt: Format) -> Option<Seq<char>> {
    match fmt {
        Format::Toml => if exists|cs: Seq<char>| encode_utf8(cs) == bytes {
            let text = choose|cs: Seq<char>| encode_utf8(cs) == bytes;
            match toml_parse_error(text) {
                Some(e) => Some("TOML parse error: "@ + e),
                None => None,
            }
        } else {
            Some("io error: "@ + utf8_error_text(bytes))
        },
        Format::Yaml => match yaml_parse_error(bytes) {
            Some(e) => Some("YAML parse error: "@ + e),
            None => None,
        },
    }
}

/// The text bytes decode to, when they are UTF-8.
pub open spec fn decoded(bytes: Seq<u8>) -> Seq<char> {
    choose|cs: Seq<char>| encode_utf8(cs) == bytes
}

/// The document bytes parse to, when they parse.
pub open spec fn parsed_doc(bytes: Seq<u8>, fmt: Format) -> Document {
    match fmt {
        Format::Toml => Document::Toml(toml_value_of(decoded(bytes))),
        Format::Yaml => Document::Yaml(yaml_value_of(bytes)),
    }
}

fn prefixed(prefix: &str, e: &String) -> (res: String)
    ensures
        res@ == prefix@ + e@,
{
    let mut out = chars_of(prefix);
    append(&mut out, &chars_of(e.as_str()));
    string_of(&out)
}

/// Parses bytes as a document of the given format.
pub fn parse_bytes(bytes: &[u8], fmt: Format) -> (res: Result<Document, String>)
    ensures
        match parse_error_spec(bytes@, fmt) {
            Some(m) => res matches Err(e) && e@ == m,
            None => res matches Ok(d) && d == parsed_doc(bytes@, fmt),
        },
{
    match fmt {
        Format::Toml => {
            let text = match utf8_str(bytes) {
                Ok(t) => t,
                Err(e) => return Err(prefixed("io error: ", &e)),
            };
            proof {
                let cs = choose|cs: Seq<char>| encode_utf8(cs) == bytes@;
                vstd::utf8::encode_utf8_decode_utf8(cs);
                vstd::utf8::encode_utf8_decode_utf8(text@);
                assert(cs == text@);
            }
            match toml_from_str(text.as_str()) {
                Ok(v) => Ok(Document::Toml(v)),
                Err(e) => Err(prefixed("TOML parse error: ", &e)),
            }
        },
        Format::Yaml => match yaml_from_slice(bytes) {
            Ok(v) => Ok(Document::Yaml(v)),
            Err(e) => Err(prefixed("YAML parse error: ", &e)),
        },
    }
}

/// The format a document is in.
pub open spec fn doc_format(doc: Document) -> Format {
    match doc {
        Document::Toml(_) => Format::Toml,
        Document::Yaml(_) => Format::Yaml,
    }
}

/// What a failure to write a format starts with.
pub open spec fn serialize_prefix(fmt: Format) -> Seq<char> {
    match fmt {
        Format::Toml => "TOML serialize error: "@,
        Format::Yaml => "YAML serialize error: "@,
    }
}

/// What rendering gives for what the format's writer returned: its text
/// unchanged, or its error under the format's prefix.
pub fn render_outcome(fmt: Format, raw: Result<String, String>) -> (res: Result<String, String>)
    ensures
        match raw {
            Ok(s) => res matches Ok(t) && t@ == s@,
            Err(e) => res matches Err(m) && m@ == serialize_prefix(fmt) + e@,
        },
{
    match raw {
        Ok(s) => Ok(s),
        Err(e) => match fmt {
            Format::Toml => Err(prefixed("TOML serialize error: ", &e)),
            Format::Yaml => Err(prefixed("YAML serialize error: ", &e)),
        },
    }
}

/// What rendering a document gives: the writer's text, or its error under
/// the format's prefix.
pub open spec fn render_spec(doc: Document) -> Result<Seq<char>, Seq<char>> {
    let raw = match doc {
        Document::Toml(v) => toml_rendered(v),
        Document::Yaml(v) => yaml_rendered(v),
    };
    match raw {
        Ok(t) => Ok(t),
        Err(e) => Err(serialize_prefix(doc_format(doc)) + e),
    }
}

/// Renders a document back to text with the writer of its format
/// (`toml::to_string` or `serde_norway::to_string`); a failure is the
/// writer's error under the format's prefix.
pub fn render(doc: &Document) -> (res: Result<String, String>)
    ensures
        match render_spec(*doc) {
            Ok(t) => res matches Ok(s) && s@ == t,
            Err(e) => res matches Err(m) && m@ == e,
        },
{
    let (fmt, raw) = match doc {
        Document::Toml(v) => (Format::Toml, toml_to_string(v)),
        Document::Yaml(v) => (Format::Yaml, yaml_to_string(v)),
    };
    render_outcome(fmt, raw)
}

/// The outcome of one round trip.
#[derive(Debug, Clone)]
pub enum RoundTrip {
    /// Parse, render and re-parse succeeded and the two values are equal.
    Passed,
    /// All three succeeded but the values differ.
    SemanticDrift,
    /// The file did not parse.
    ParseFailed(String),
    /// Rendering the parsed value failed.
    RenderFailed(String),
    /// Re-parsing the rendered text failed.
    ReparseFailed(String),
}

pub open spec fn round_trip_label(r: RoundTrip) -> Seq<char> {
    match r {
        RoundTrip::Passed => "ok"@,
        RoundTrip::SemanticDrift => "drift"@,
        RoundTrip::ParseFailed(_) => "parse_failed"@,
        RoundTrip::RenderFailed(_) => "render_failed"@,
        RoundTrip::ReparseFailed(_) => "reparse_failed"@,
    }
}

impl RoundTrip {
    pub fn is_ok(&self) -> (res: bool)
        ensures
            res == self is Passed,
    {
        match self {
            RoundTrip::Passed => true,
            _ => false,
        }
    }

    /// A short name for the outcome.
    pub fn label(&self) -> (res: &'static str)
        ensures
            res@ == round_trip_label(*self),
    {
        match self {
            RoundTrip::Passed => "ok",
            RoundTrip::SemanticDrift => "drift",
            RoundTrip::ParseFailed(_) => "parse_failed",
            RoundTrip::RenderFailed(_) => "render_failed",
            RoundTrip::ReparseFailed(_) => "reparse_failed",
        }
    }
}

/// Model of a round trip's outcome.
pub enum RoundTripV {
    Passed,
    SemanticDrift,
    ParseFailed(Seq<char>),
    RenderFailed(Seq<char>),
    ReparseFailed(Seq<char>),
}

pub open spec fn round_trip_view(r: RoundTrip) -> RoundTripV {
    match r {
        RoundTrip::Passed => RoundTripV::Passed,
        RoundTrip::SemanticDrift => RoundTripV::SemanticDrift,
        RoundTrip::ParseFailed(e) => RoundTripV::ParseFailed(e@),
        RoundTrip::RenderFailed(e) => RoundTripV::RenderFailed(e@),
        RoundTrip::ReparseFailed(e) => RoundTripV::ReparseFailed(e@),
    }
}

/// Whether two documents hold values their format's `==` calls equal;
/// documents of different formats never do.
pub open spec fn docs_equal(a: Document, b: Document) -> bool {
    match (a, b) {
        (Document::Toml(x), Document::Toml(y)) => toml_equal(x, y),
        (Document::Yaml(x), Document::Yaml(y)) => yaml_equal(x, y),
        _ => false,
    }
}

/// The outcome of parsing bytes, rendering the document, parsing the
/// rendered text and comparing the two documents.
pub open spec fn round_trip_spec(bytes: Seq<u8>, fmt: Format) -> RoundTripV {
    match parse_error_spec(bytes, fmt) {
        Some(m) => RoundTripV::ParseFailed(m),
        None => {
            let original = parsed_doc(bytes, fmt);
            match render_spec(original) {
                Err(e) => RoundTripV::RenderFailed(e),
                Ok(t) => {
                    let out = encode_utf8(t);
                    match parse_error_spec(out, fmt) {
                        Some(m) => RoundTripV::ReparseFailed(m),
                        None => if docs_equal(original, parsed_doc(out, fmt)) {
                            RoundTripV::Passed
                        } else {
                            RoundTripV::SemanticDrift
                        },
                    }
                },
            }
        },
    }
}

/// Parse, render, re-parse and compare one file's bytes: a file that does
/// not parse gives its parse error, a document that does not render the
/// writer's error, a rendered text that does not re-parse that text's
/// parse error, and otherwise whether the two values compare equal.
pub fn round_trip(bytes: &[u8], fmt: Format) -> (res: RoundTrip)
    ensures
        round_trip_view(res) == round_trip_spec(bytes@, fmt),
{
    let original = match parse_bytes(bytes, fmt) {
        Ok(d) => d,
        Err(e) => return RoundTrip::ParseFailed(e),
    };
    let rendered = match render(&original) {
        Ok(s) => s,
        Err(e) => return RoundTrip::RenderFailed(e),
    };
    let reparsed = match parse_bytes(rendered.as_str().as_bytes(), fmt) {
        Ok(d) => d,
        Err(e) => return RoundTrip::ReparseFailed(e),
    };
    let same = match (&original, &reparsed) {
        (Document::Toml(a), Document::Toml(b)) => toml_values_equal(a, b),
        (Document::Yaml(a), Document::Yaml(b)) => yaml_values_equal(a, b),
        _ => false,
    };
    if same {
        RoundTrip::Passed
    } else {
        RoundTrip::SemanticDrift
    }
}

} // verus!
