//! Declarative rewrites over parsed config trees.
//!
//! Two phases: `plan_rewrite` resolves a `RewriteOp`'s selector against a
//! tree to a list of concrete addresses, and `apply_at` mutates a tree in
//! place at one such address according to an `Action`. No I/O happens
//! here; callers stage every mutation of a repository in memory and
//! discard the tree on any error.
//!
//! The tree is the library's `Json`, read in the flavour of the file it
//! came from: a TOML table keeps its keys in sorted order and removes a key
//! by closing the gap; a YAML mapping keeps insertion order, appends new
//! keys and removes a key by moving the last entry into its place.

use vstd::prelude::*;

use crate::address::{
    AddressError, SegV, Segment, key_index, key_index_from, lemma_key_index_from, parse_address,
    parse_segments, segs_view, ScanError,
};
use crate::json::{JVal, Json, JsonEntry, group_json_view, json_text, quoted, render_compact, view_entries, view_list};
use crate::address::{lookup, strings_view, subtree_at_spec, walk_segs};
use crate::match_pred::{MatchPredicate, MatchPredicateError, PredErrV, find_match_addresses, match_addresses, parse_predicate};
use crate::parse::Format;
use crate::text::{append, append_str, chars_lt, chars_of, compare_chars_exec, string_of};

verus! {

broadcast use group_json_view;

// ---------------------------------------------------------------------------
// The rewrite language
// ---------------------------------------------------------------------------

/// Pen-level aggregate status of an op across all in-scope repositories.
#[derive(Debug, Clone, Copy, PartialEq, Eq)]
pub enum OpStatus {
    /// No repository has succeeded yet, and none has failed for good.
    Pending,
    /// Every in-scope repository has applied the op.
    Applied,
    /// Some repositories applied it, others did not.
    Partial,
    /// At least one repository failed the op without rolling back.
    Failed,
}

impl Default for OpStatus {
    fn default() -> (res: Self)
        ensures
            res == OpStatus::Pending,
    {
        OpStatus::Pending
    }
}

/// What an op targets.
#[derive(Debug, Clone)]
pub enum Selector {
    /// A predicate in the grammar of `MatchPredicate`.
    Predicate { predicate: String },
}

/// Model of an action.
pub enum ActV {
    SetValue(JVal),
    Delete,
    RenameKey(Seq<char>),
    InsertSibling(Seq<char>, JVal),
}

/// What to do at each target address.
#[derive(Debug)]
pub enum Action {
    /// Replace the value at the address.
    SetValue { value: Json },
    /// Delete the key (in an object) or element (in an array) at the
    /// address.
    Delete,
    /// Rename the leaf key of the address, which must end in a key.
    RenameKey { to: String },
    /// Insert a sibling `key = value` into the parent object of the
    /// address.
    InsertSibling { key: String, value: Json },
}

impl View for Action {
    type V = ActV;

    open spec fn view(&self) -> ActV {
        match self {
            Action::SetValue { value } => ActV::SetValue(value@),
            Action::Delete => ActV::Delete,
            Action::RenameKey { to } => ActV::RenameKey(to@),
            Action::InsertSibling { key, value } => ActV::InsertSibling(key@, value@),
        }
    }
}

pub open spec fn action_name(a: ActV) -> Seq<char> {
    match a {
        ActV::SetValue(_) => "set"@,
        ActV::Delete => "delete"@,
        ActV::RenameKey(_) => "rename_key"@,
        ActV::InsertSibling(_, _) => "insert_sibling"@,
    }
}

impl Action {
    /// The action's name as it appears in error messages.
    pub fn name(&self) -> (res: String)
        ensures
            res@ == action_name(self@),
    {
        match self {
            Action::SetValue { .. } => "set".to_owned(),
            Action::Delete => "delete".to_owned(),
            Action::RenameKey { .. } => "rename_key".to_owned(),
            Action::InsertSibling { .. } => "insert_sibling".to_owned(),
        }
    }
}

/// One declarative rewrite operation.
#[derive(Debug)]
pub struct RewriteOp {
    /// Stable identifier, supplied when the pen is created.
    pub id: String,
    pub selector: Selector,
    pub action: Action,
    /// Aggregate status across all in-scope repositories.
    pub status: OpStatus,
}

// ---------------------------------------------------------------------------
// Outcomes
// ---------------------------------------------------------------------------

/// How one op went on one file.
#[derive(Debug, Clone)]
pub enum OpOutcome {
    /// Addresses were mutated and the rendered bytes are ready.
    Applied,
    /// The selector resolved to no address; nothing to do.
    NoTargets,
    /// An address failed to apply; the reason is the first error.
    Failed { reason: String },
    /// Validation rejected the rewritten document.
    ValidationFailed { errors: Vec<String> },
}

impl OpOutcome {
    /// Applied, or nothing to apply.
    pub fn is_success(&self) -> (res: bool)
        ensures
            res == (self is Applied || self is NoTargets),
    {
        match self {
            OpOutcome::Applied | OpOutcome::NoTargets => true,
            _ => false,
        }
    }
}

/// The outcome of one op on one file.
#[derive(Debug, Clone)]
pub struct FileOutcome {
    pub path: String,
    pub addresses: Vec<String>,
    pub status: OpOutcome,
}

/// The outcome of one op over the files of a repository.
#[derive(Debug, Clone)]
pub struct RewriteOutcome {
    pub op_id: String,
    pub files: Vec<FileOutcome>,
}

// ---------------------------------------------------------------------------
// Errors
// ---------------------------------------------------------------------------

/// Why an action could not be applied.
#[derive(Debug, Clone, PartialEq, Eq)]
pub enum ApplyError {
    /// The address does not resolve in the document.
    AddressNotFound { address: String },
    /// The address is malformed.
    AddressParse { address: String, reason: String },
    /// The action makes no sense at the address.
    InvalidAtAddress { action: String, address: String, reason: String },
    /// The new value cannot be written in the document's format.
    ValueConversion(String),
}

/// Model of an `ApplyError`.
pub enum ApplyErrV {
    NotFound(Seq<char>),
    Parse(Seq<char>, Seq<char>),
    Invalid(Seq<char>, Seq<char>, Seq<char>),
    Conversion(Seq<char>),
}

impl View for ApplyError {
    type V = ApplyErrV;

    open spec fn view(&self) -> ApplyErrV {
        match self {
            ApplyError::AddressNotFound { address } => ApplyErrV::NotFound(address@),
            ApplyError::AddressParse { address, reason } => ApplyErrV::Parse(address@, reason@),
            ApplyError::InvalidAtAddress { action, address, reason } => ApplyErrV::Invalid(
                action@,
                address@,
                reason@,
            ),
            ApplyError::ValueConversion(m) => ApplyErrV::Conversion(m@),
        }
    }
}

pub open spec fn apply_error_text(e: ApplyErrV) -> Seq<char> {
    match e {
        ApplyErrV::NotFound(a) => "address "@ + quoted(a) + " did not resolve in document"@,
        ApplyErrV::Parse(a, r) => "address "@ + quoted(a) + " parse failed: "@ + r,
        ApplyErrV::Invalid(act, a, r) => "action "@ + act + " not valid at address "@ + quoted(a) + ": "@ + r,
        ApplyErrV::Conversion(m) => "value conversion failed: "@ + m,
    }
}

impl ApplyError {
    /// The error's text.
    pub fn message(&self) -> (res: String)
        ensures
            res@ == apply_error_text(self@),
    {
        let mut out: Vec<char> = Vec::new();
        match self {
            ApplyError::AddressNotFound { address } => {
                append_str(&mut out, "address ");
                append(&mut out, &crate::address::quoted_string(&chars_of(address.as_str())));
                append_str(&mut out, " did not resolve in document");
            },
            ApplyError::AddressParse { address, reason } => {
                append_str(&mut out, "address ");
                append(&mut out, &crate::address::quoted_string(&chars_of(address.as_str())));
                append_str(&mut out, " parse failed: ");
                append(&mut out, &chars_of(reason.as_str()));
            },
            ApplyError::InvalidAtAddress { action, address, reason } => {
                append_str(&mut out, "action ");
                append(&mut out, &chars_of(action.as_str()));
                append_str(&mut out, " not valid at address ");
                append(&mut out, &crate::address::quoted_string(&chars_of(address.as_str())));
                append_str(&mut out, ": ");
                append(&mut out, &chars_of(reason.as_str()));
            },
            ApplyError::ValueConversion(m) => {
                append_str(&mut out, "value conversion failed: ");
                append(&mut out, &chars_of(m.as_str()));
            },
        }
        string_of(&out)
    }
}

// ---------------------------------------------------------------------------
// Editing a tree at an address
// ---------------------------------------------------------------------------

pub open spec fn not_object(toml: bool) -> Seq<char> {
    if toml {
        "parent is not a table"@
    } else {
        "parent is not a mapping"@
    }
}

pub open spec fn not_array(toml: bool) -> Seq<char> {
    if toml {
        "parent is not an array"@
    } else {
        "parent is not a sequence"@
    }
}

pub open spec fn wildcard_reason() -> Seq<char> {
    "wildcard in concrete address (planning bug)"@
}

pub open spec fn root_reason() -> Seq<char> {
    "empty address (root); rewriting the entire document is not supported"@
}

pub open spec fn not_key_reason() -> Seq<char> {
    "address must end in an object key"@
}

/// Where a new key goes in a sorted table: before the first greater key.
pub open spec fn insert_pos_from(es: Seq<(Seq<char>, JVal)>, k: Seq<char>, i: int) -> int
    decreases es.len() - i,
{
    if i < 0 || i >= es.len() {
        es.len() as int
    } else if chars_lt(k, es[i].0) {
        i
    } else {
        insert_pos_from(es, k, i + 1)
    }
}

/// `es` with `k` bound to `v`: an existing key keeps its place; a new key
/// goes into sorted position in a TOML table and at the end of a YAML
/// mapping.
pub open spec fn obj_insert(es: Seq<(Seq<char>, JVal)>, k: Seq<char>, v: JVal, toml: bool) -> Seq<(Seq<char>, JVal)> {
    match key_index(es, k) {
        Some(i) => es.update(i, (k, v)),
        None => if toml {
            es.insert(insert_pos_from(es, k, 0), (k, v))
        } else {
            es.push((k, v))
        },
    }
}

/// `es` without entry `i`: a TOML table closes the gap, a YAML mapping
/// moves its last entry into the hole.
pub open spec fn obj_remove(es: Seq<(Seq<char>, JVal)>, i: int, toml: bool) -> Seq<(Seq<char>, JVal)> {
    if toml {
        es.remove(i)
    } else {
        es.update(i, es.last()).drop_last()
    }
}

/// The action at the last segment, applied to the parent `p`.
pub open spec fn leaf_edit(p: JVal, last: SegV, act: ActV, toml: bool, a: Seq<char>) -> Result<JVal, ApplyErrV> {
    match act {
        ActV::SetValue(nv) => match last {
            SegV::Key(k) => match p {
                JVal::Obj(es) => Ok(JVal::Obj(obj_insert(es, k, nv, toml))),
                _ => Err(ApplyErrV::Invalid("set"@, a, not_object(toml))),
            },
            SegV::Index(i) => match p {
                JVal::Arr(xs) => if i < xs.len() {
                    Ok(JVal::Arr(xs.update(i as int, nv)))
                } else {
                    Err(ApplyErrV::NotFound(a))
                },
                _ => Err(ApplyErrV::Invalid("set"@, a, not_array(toml))),
            },
            SegV::Any => Err(ApplyErrV::Invalid("set"@, a, wildcard_reason())),
        },
        ActV::Delete => match last {
            SegV::Key(k) => match p {
                JVal::Obj(es) => match key_index(es, k) {
                    Some(i) => Ok(JVal::Obj(obj_remove(es, i, toml))),
                    None => Err(ApplyErrV::NotFound(a)),
                },
                _ => Err(ApplyErrV::Invalid("delete"@, a, not_object(toml))),
            },
            SegV::Index(i) => match p {
                JVal::Arr(xs) => if i < xs.len() {
                    Ok(JVal::Arr(xs.remove(i as int)))
                } else {
                    Err(ApplyErrV::NotFound(a))
                },
                _ => Err(ApplyErrV::Invalid("delete"@, a, not_array(toml))),
            },
            SegV::Any => Err(ApplyErrV::Invalid("delete"@, a, wildcard_reason())),
        },
        ActV::RenameKey(to) => match last {
            SegV::Key(old) => match p {
                JVal::Obj(es) => match key_index(es, old) {
                    Some(i) => Ok(JVal::Obj(obj_insert(obj_remove(es, i, toml), to, es[i].1, toml))),
                    None => Err(ApplyErrV::NotFound(a)),
                },
                _ => Err(ApplyErrV::Invalid("rename_key"@, a, not_object(toml))),
            },
            _ => Err(ApplyErrV::Invalid("rename_key"@, a, not_key_reason())),
        },
        ActV::InsertSibling(key, nv) => match p {
            JVal::Obj(es) => Ok(JVal::Obj(obj_insert(es, key, nv, toml))),
            _ => Err(ApplyErrV::Invalid("insert_sibling"@, a, not_object(toml))),
        },
    }
}

/// Follows all but the last segment from `v`, applies the action at the
/// parent reached and rebuilds the path.
pub open spec fn edit_at(v: JVal, segs: Seq<SegV>, act: ActV, toml: bool, a: Seq<char>) -> Result<JVal, ApplyErrV>
    decreases segs.len(),
{
    if segs.len() == 0 {
        Err(ApplyErrV::Invalid(action_name(act), a, root_reason()))
    } else if segs.len() == 1 {
        leaf_edit(v, segs[0], act, toml, a)
    } else {
        match segs[0] {
            SegV::Key(k) => match v {
                JVal::Obj(es) => match key_index(es, k) {
                    Some(i) => match edit_at(es[i].1, segs.drop_first(), act, toml, a) {
                        Ok(c) => Ok(JVal::Obj(es.update(i, (es[i].0, c)))),
                        Err(e) => Err(e),
                    },
                    None => Err(ApplyErrV::NotFound(a)),
                },
                _ => Err(ApplyErrV::NotFound(a)),
            },
            SegV::Index(n) => match v {
                JVal::Arr(xs) => if n < xs.len() {
                    match edit_at(xs[n as int], segs.drop_first(), act, toml, a) {
                        Ok(c) => Ok(JVal::Arr(xs.update(n as int, c))),
                        Err(e) => Err(e),
                    }
                } else {
                    Err(ApplyErrV::NotFound(a))
                },
                _ => Err(ApplyErrV::NotFound(a)),
            },
            SegV::Any => Err(ApplyErrV::Invalid("navigate"@, a, wildcard_reason())),
        }
    }
}

/// The whole edit for parsed segments: the root cannot be rewritten, and a
/// rename needs an address ending in a key.
pub open spec fn apply_segments(root: JVal, segs: Seq<SegV>, act: ActV, toml: bool, a: Seq<char>) -> Result<JVal, ApplyErrV> {
    if segs.len() == 0 {
        Err(ApplyErrV::Invalid(action_name(act), a, root_reason()))
    } else if act is RenameKey && !(segs.last() is Key) {
        Err(ApplyErrV::Invalid("rename_key"@, a, not_key_reason()))
    } else {
        edit_at(root, segs, act, toml, a)
    }
}

fn invalid(action: &str, address: &str, reason: &str) -> (res: ApplyError)
    ensures
        res@ == ApplyErrV::Invalid(action@, address@, reason@),
{
    ApplyError::InvalidAtAddress { action: action.to_owned(), address: address.to_owned(), reason: reason.to_owned() }
}

fn not_found(address: &str) -> (res: ApplyError)
    ensures
        res@ == ApplyErrV::NotFound(address@),
{
    ApplyError::AddressNotFound { address: address.to_owned() }
}

fn not_object_exec(toml: bool) -> (res: &'static str)
    ensures
        res@ == not_object(toml),
{
    if toml {
        "parent is not a table"
    } else {
        "parent is not a mapping"
    }
}

fn not_array_exec(toml: bool) -> (res: &'static str)
    ensures
        res@ == not_array(toml),
{
    if toml {
        "parent is not an array"
    } else {
        "parent is not a sequence"
    }
}

/// Position of the first key greater than `k`, or the length.
fn insert_pos(entries: &Vec<JsonEntry>, k: &Vec<char>) -> (res: usize)
    ensures
        res as int == insert_pos_from(view_entries(entries@), k@, 0),
        res <= entries@.len(),
{
    let ghost es = view_entries(entries@);
    let mut i: usize = 0;
    while i < entries.len()
        invariant
            i <= entries@.len(),
            es == view_entries(entries@),
            insert_pos_from(es, k@, 0) == insert_pos_from(es, k@, i as int),
        decreases entries@.len() - i,
    {
        assert(es[i as int] == entries@[i as int]@);
        let key = chars_of(entries[i].key.as_str());
        if compare_chars_exec(k, &key) < 0 {
            return i;
        }
        i = i + 1;
    }
    i
}

/// Binds `k` to `v` in the entries of an object.
fn obj_insert_exec(entries: &mut Vec<JsonEntry>, k: String, v: Json, toml: bool)
    ensures
        view_entries(final(entries)@) == obj_insert(view_entries(old(entries)@), k@, v@, toml),
{
    let ghost es = view_entries(entries@);
    let ghost kv = k@;
    let ghost vv = v@;
    match crate::address::find_key(entries, &k) {
        Some(i) => {
            entries.set(i, JsonEntry { key: k, value: v });
            assert(view_entries(entries@) =~= es.update(i as int, (kv, vv)));
        },
        None => {
            if toml {
                let p = insert_pos(entries, &chars_of(k.as_str()));
                entries.insert(p, JsonEntry { key: k, value: v });
                assert(view_entries(entries@) =~= es.insert(p as int, (kv, vv)));
            } else {
                entries.push(JsonEntry { key: k, value: v });
                assert(view_entries(entries@) =~= es.push((kv, vv)));
            }
        },
    }
}

/// Removes entry `i` of an object.
fn obj_remove_exec(entries: &mut Vec<JsonEntry>, i: usize, toml: bool) -> (res: JsonEntry)
    requires
        i < old(entries)@.len(),
    ensures
        res@ == view_entries(old(entries)@)[i as int],
        view_entries(final(entries)@) == obj_remove(view_entries(old(entries)@), i as int, toml),
{
    let ghost es = view_entries(entries@);
    let ghost before = entries@;
    if toml {
        let e = entries.remove(i);
        assert(view_entries(entries@) =~= es.remove(i as int));
        e
    } else {
        let e = entries.swap_remove(i);
        assert(view_entries(entries@) =~= es.update(i as int, es.last()).drop_last());
        e
    }
}

/// The action at the last segment, applied to the parent `v`; `v` is left
/// as it was on error.
fn edit_leaf(v: &mut Json, last: &Segment, action: &Action, toml: bool, address: &str) -> (res: Result<(), ApplyError>)
    ensures
        match leaf_edit(old(v)@, last@, action@, toml, address@) {
            Ok(nv) => res is Ok && final(v)@ == nv,
            Err(e) => res matches Err(x) && x@ == e && final(v)@ == old(v)@,
        },
{
    match action {
        Action::SetValue { value } => match last {
            Segment::Key(k) => match v {
                Json::Object(entries) => {
                    obj_insert_exec(entries, k.clone(), crate::json::json_clone(value), toml);
                    Ok(())
                },
                _ => Err(invalid("set", address, not_object_exec(toml))),
            },
            Segment::Index(i) => match v {
                Json::Array(xs) => {
                    if *i < xs.len() {
                        let ghost before = view_list(xs@);
                        let nv = crate::json::json_clone(value);
                        let ghost nvv = nv@;
                        xs.set(*i, nv);
                        assert(view_list(xs@) =~= before.update(*i as int, nvv));
                        Ok(())
                    } else {
                        Err(not_found(address))
                    }
                },
                _ => Err(invalid("set", address, not_array_exec(toml))),
            },
            Segment::Any => Err(invalid("set", address, "wildcard in concrete address (planning bug)")),
        },
        Action::Delete => match last {
            Segment::Key(k) => match v {
                Json::Object(entries) => match crate::address::find_key(entries, k) {
                    Some(i) => {
                        let _gone = obj_remove_exec(entries, i, toml);
                        Ok(())
                    },
                    None => Err(not_found(address)),
                },
                _ => Err(invalid("delete", address, not_object_exec(toml))),
            },
            Segment::Index(i) => match v {
                Json::Array(xs) => {
                    if *i < xs.len() {
                        let ghost before = view_list(xs@);
                        let _gone = xs.remove(*i);
                        assert(view_list(xs@) =~= before.remove(*i as int));
                        Ok(())
                    } else {
                        Err(not_found(address))
                    }
                },
                _ => Err(invalid("delete", address, not_array_exec(toml))),
            },
            Segment::Any => Err(invalid("delete", address, "wildcard in concrete address (planning bug)")),
        },
        Action::RenameKey { to } => match last {
            Segment::Key(old_key) => match v {
                Json::Object(entries) => match crate::address::find_key(entries, old_key) {
                    Some(i) => {
                        let gone = obj_remove_exec(entries, i, toml);
                        obj_insert_exec(entries, to.clone(), gone.value, toml);
                        Ok(())
                    },
                    None => Err(not_found(address)),
                },
                _ => Err(invalid("rename_key", address, not_object_exec(toml))),
            },
            _ => Err(invalid("rename_key", address, "address must end in an object key")),
        },
        Action::InsertSibling { key, value } => match v {
            Json::Object(entries) => {
                obj_insert_exec(entries, key.clone(), crate::json::json_clone(value), toml);
                Ok(())
            },
            _ => Err(invalid("insert_sibling", address, not_object_exec(toml))),
        },
    }
}

/// Follows `segs[pos..]` from `cur` down to the parent of the last
/// segment and applies the action there. Gives back the new tree, or the
/// tree unchanged with the error.
fn edit_owned(cur: Json, segs: &Vec<Segment>, pos: usize, action: &Action, toml: bool, address: &str) -> (res: (Json, Result<(), ApplyError>))
    requires
        pos < segs@.len(),
    ensures
        match edit_at(cur@, segs_view(segs@).skip(pos as int), action@, toml, address@) {
            Ok(nv) => res.1 is Ok && res.0@ == nv,
            Err(e) => res.1 matches Err(x) && x@ == e && res.0@ == cur@,
        },
    decreases segs@.len() - pos,
{
    let ghost rest = segs_view(segs@).skip(pos as int);
    assert(rest[0] == segs@[pos as int]@);
    assert(rest.drop_first() =~= segs_view(segs@).skip(pos + 1));
    if pos == segs.len() - 1 {
        let mut c = cur;
        let r = edit_leaf(&mut c, &segs[pos], action, toml, address);
        return (c, r);
    }
    assert(rest.len() > 1);
    match cur {
        Json::Object(mut entries) => match &segs[pos] {
            Segment::Key(k) => match crate::address::find_key(&entries, k) {
                Some(i) => {
                    let ghost es = view_entries(entries@);
                    let JsonEntry { key, value } = entries.remove(i);
                    assert(es[i as int] == (key@, value@));
                    let ghost kv = key@;
                    let (nv, r) = edit_owned(value, segs, pos + 1, action, toml, address);
                    let ghost nvv = nv@;
                    entries.insert(i, JsonEntry { key, value: nv });
                    assert(view_entries(entries@) =~= es.update(i as int, (kv, nvv)));
                    if r.is_err() {
                        assert(view_entries(entries@) =~= es);
                    }
                    (Json::Object(entries), r)
                },
                None => (Json::Object(entries), Err(not_found(address))),
            },
            Segment::Index(_) => (Json::Object(entries), Err(not_found(address))),
            Segment::Any => (Json::Object(entries), Err(invalid("navigate", address, "wildcard in concrete address (planning bug)"))),
        },
        Json::Array(mut xs) => match &segs[pos] {
            Segment::Index(n) => {
                if *n < xs.len() {
                    let ghost xv = view_list(xs@);
                    let x = xs.remove(*n);
                    assert(x@ == xv[*n as int]);
                    let (nx, r) = edit_owned(x, segs, pos + 1, action, toml, address);
                    let ghost nxv = nx@;
                    xs.insert(*n, nx);
                    assert(view_list(xs@) =~= xv.update(*n as int, nxv));
                    if r.is_err() {
                        assert(view_list(xs@) =~= xv);
                    }
                    (Json::Array(xs), r)
                } else {
                    (Json::Array(xs), Err(not_found(address)))
                }
            },
            Segment::Key(_) => (Json::Array(xs), Err(not_found(address))),
            Segment::Any => (Json::Array(xs), Err(invalid("navigate", address, "wildcard in concrete address (planning bug)"))),
        },
        other => match &segs[pos] {
            Segment::Any => (other, Err(invalid("navigate", address, "wildcard in concrete address (planning bug)"))),
            _ => (other, Err(not_found(address))),
        },
    }
}

// ---------------------------------------------------------------------------
// Values written into TOML
// ---------------------------------------------------------------------------

/// What `serde_json::from_str::<toml::Value>` reports, as text, when it
/// refuses a JSON text; none when the text reads as a TOML value.
pub uninterp spec fn toml_refusal(text: Seq<char>) -> Option<Seq<char>>;

/// Reads a JSON text as a TOML value with
/// `serde_json::from_str::<toml::Value>`; gives back the error's text, or
/// none when it reads. The contract only names the result.
#[verifier::external_body]
fn toml_value_refusal(text: &str) -> (res: Option<String>)
    ensures
        match res {
            Some(e) => toml_refusal(text@) == Some(e@),
            None => toml_refusal(text@) is None,
        },
{
    match serde_json::from_str::<toml::Value>(text) {
        Ok(_) => None,
        Err(e) => Some(e.to_string()),
    }
}

/// Why a value cannot be written into a TOML document, given what reading
/// its JSON text as a TOML value reported: TOML has no null, and an array
/// or object is refused where that reading is.
pub open spec fn toml_conversion_spec(v: JVal, refusal: Option<Seq<char>>) -> Option<Seq<char>> {
    match v {
        JVal::Null => Some("TOML has no null type; cannot set null"@),
        JVal::Arr(_) | JVal::Obj(_) => match refusal {
            Some(e) => Some("json → toml: "@ + e),
            None => None,
        },
        _ => None,
    }
}

pub open spec fn toml_value_error(v: JVal) -> Option<Seq<char>> {
    toml_conversion_spec(v, toml_refusal(json_text(v)))
}

/// Why `value` cannot be written into a TOML document, given `refusal`,
/// what reading its JSON text as a TOML value reported.
pub fn toml_conversion(value: &Json, refusal: Option<String>) -> (res: Option<String>)
    ensures
        match res {
            Some(m) => toml_conversion_spec(value@, match refusal { Some(e) => Some(e@), None => None }) == Some(m@),
            None => toml_conversion_spec(value@, match refusal { Some(e) => Some(e@), None => None }) is None,
        },
{
    match value {
        Json::Null => Some("TOML has no null type; cannot set null".to_owned()),
        Json::Array(_) | Json::Object(_) => match refusal {
            Some(e) => {
                let mut out = chars_of("json → toml: ");
                append(&mut out, &chars_of(e.as_str()));
                Some(string_of(&out))
            },
            None => None,
        },
        _ => None,
    }
}

/// Why `value` cannot be written into a TOML document, if it cannot.
fn json_to_toml(value: &Json) -> (res: Option<String>)
    ensures
        match res {
            Some(m) => toml_value_error(value@) == Some(m@),
            None => toml_value_error(value@) is None,
        },
{
    match value {
        Json::Array(_) | Json::Object(_) => {
            let text = string_of(&render_compact(value));
            let refusal = toml_value_refusal(text.as_str());
            toml_conversion(value, refusal)
        },
        _ => toml_conversion(value, None),
    }
}

// ---------------------------------------------------------------------------
// Applying an action at an address
// ---------------------------------------------------------------------------

/// The text of the error `parse_address` gives for `addr`.
pub open spec fn address_error_text(addr: Seq<char>, e: ScanError) -> Seq<char> {
    match e {
        ScanError::Unclosed => "unclosed `[` in address: "@ + quoted(addr),
        ScanError::NonNumeric(inner) => "non-numeric array index "@ + quoted(inner) + " in address: "@ + quoted(addr),
    }
}

/// The new value an action writes, if it writes one.
pub open spec fn written_value(act: ActV) -> Option<JVal> {
    match act {
        ActV::SetValue(v) => Some(v),
        ActV::InsertSibling(_, v) => Some(v),
        _ => None,
    }
}

/// The tree after applying `act` at `addr` in a document of format `fmt`,
/// or the error.
pub open spec fn apply_spec(root: JVal, fmt: Format, addr: Seq<char>, act: ActV) -> Result<JVal, ApplyErrV> {
    match parse_segments(addr) {
        Err(e) => Err(ApplyErrV::Parse(addr, address_error_text(addr, e))),
        Ok(segs) => if segs.len() == 0 {
            Err(ApplyErrV::Invalid(action_name(act), addr, root_reason()))
        } else if fmt == Format::Toml && written_value(act) is Some && toml_value_error(
            written_value(act)->0,
        ) is Some {
            Err(ApplyErrV::Conversion(toml_value_error(written_value(act)->0)->0))
        } else {
            apply_segments(root, segs, act, fmt == Format::Toml, addr)
        },
    }
}

/// Applies `action` at the concrete `address` of `doc`, a document of
/// format `format`. On error `doc` is left as it was.
pub fn apply_at(doc: &mut Json, format: Format, address: &str, action: &Action) -> (res: Result<(), ApplyError>)
    ensures
        match apply_spec(old(doc)@, format, address@, action@) {
            Ok(nv) => res is Ok && final(doc)@ == nv,
            Err(e) => res matches Err(x) && x@ == e && final(doc)@ == old(doc)@,
        },
{
    let toml = match format {
        Format::Toml => true,
        Format::Yaml => false,
    };
    let segs = match parse_address(address) {
        Ok(s) => s,
        Err(e) => {
            let reason = e.message();
            return Err(ApplyError::AddressParse { address: address.to_owned(), reason });
        },
    };
    let ghost sv = segs_view(segs@);
    if segs.len() == 0 {
        return Err(ApplyError::InvalidAtAddress {
            action: action.name(),
            address: address.to_owned(),
            reason: "empty address (root); rewriting the entire document is not supported".to_owned(),
        });
    }
    if toml {
        let refused = match action {
            Action::SetValue { value } => json_to_toml(value),
            Action::InsertSibling { value, .. } => json_to_toml(value),
            _ => None,
        };
        if let Some(m) = refused {
            return Err(ApplyError::ValueConversion(m));
        }
    }
    assert(sv.last() == segs@[segs@.len() - 1]@);
    if let Action::RenameKey { .. } = action {
        match &segs[segs.len() - 1] {
            Segment::Key(_) => {},
            _ => return Err(invalid("rename_key", address, "address must end in an object key")),
        }
    }
    assert(sv.skip(0) =~= sv);
    let mut cur = Json::Null;
    std::mem::swap(&mut cur, doc);
    let (nv, r) = edit_owned(cur, &segs, 0, action, toml, address);
    *doc = nv;
    r
}

// ---------------------------------------------------------------------------
// Planning
// ---------------------------------------------------------------------------

/// An op with the concrete addresses it resolves to.
#[derive(Debug)]
pub struct PlannedRewrite<'a> {
    pub op: &'a RewriteOp,
    pub addresses: Vec<String>,
}

impl PlannedRewrite<'_> {
    /// No address to rewrite.
    pub fn is_empty(&self) -> (res: bool)
        ensures
            res == (self.addresses@.len() == 0),
    {
        self.addresses.len() == 0
    }
}

/// A selector whose predicate does not parse.
#[derive(Debug, Clone)]
pub struct PlanError {
    pub predicate: String,
    pub cause: MatchPredicateError,
}

/// `e` is the parse error `ev` of predicate `input`.
pub open spec fn is_pred_error(e: MatchPredicateError, ev: PredErrV, input: Seq<char>) -> bool {
    match ev {
        PredErrV::OperatorOnAbsence(op) => e matches MatchPredicateError::OperatorOnAbsence { op: o, input: i } && o
            == op && i@ == input,
        PredErrV::EmptyPath => e matches MatchPredicateError::EmptyPath { input: i } && i@ == input,
    }
}

impl PlanError {
    /// `parsing selector predicate "…": ` and the cause.
    pub fn message(&self) -> (res: String)
        ensures
            res@ == "parsing selector predicate "@ + quoted(self.predicate@) + ": "@ + self.cause.message_spec(),
    {
        let mut out = chars_of("parsing selector predicate ");
        append(&mut out, &crate::address::quoted_string(&chars_of(self.predicate.as_str())));
        append_str(&mut out, ": ");
        let m = self.cause.message();
        append(&mut out, &chars_of(m.as_str()));
        string_of(&out)
    }
}

/// The plan of `op` on a tree: the addresses its predicate matches.
pub open spec fn plan_spec(op: RewriteOp, tree: JVal) -> Result<Seq<Seq<char>>, PredErrV> {
    match op.selector {
        Selector::Predicate { predicate } => match parse_predicate(predicate@) {
            Ok(p) => Ok(match_addresses(tree, p)),
            Err(e) => Err(e),
        },
    }
}

pub open spec fn selector_text(op: RewriteOp) -> Seq<char> {
    match op.selector {
        Selector::Predicate { predicate } => predicate@,
    }
}

/// Resolves an op against a parsed tree.
pub fn plan_rewrite<'a>(op: &'a RewriteOp, tree: &Json) -> (res: Result<PlannedRewrite<'a>, PlanError>)
    ensures
        match plan_spec(*op, tree@) {
            Ok(addrs) => res matches Ok(pl) && pl.op == op && strings_view(pl.addresses@) == addrs,
            Err(e) => res matches Err(pe) && pe.predicate@ == selector_text(*op) && is_pred_error(
                pe.cause,
                e,
                selector_text(*op),
            ),
        },
{
    match &op.selector {
        Selector::Predicate { predicate } => match MatchPredicate::parse(predicate.as_str()) {
            Ok(pred) => {
                let addresses = find_match_addresses(tree, &pred);
                Ok(PlannedRewrite { op, addresses })
            },
            Err(cause) => Err(PlanError { predicate: predicate.clone(), cause }),
        },
    }
}

/// `pe` is the error of planning `op` on `tree`.
pub open spec fn first_plan_error(pe: PlanError, op: RewriteOp, tree: JVal) -> bool {
    &&& plan_spec(op, tree) is Err
    &&& pe.predicate@ == selector_text(op)
    &&& is_pred_error(pe.cause, plan_spec(op, tree)->Err_0, selector_text(op))
}

/// Resolves every op against the same tree, in op order; the first
/// malformed selector stops it.
pub fn plan_all<'a>(ops: &'a Vec<RewriteOp>, tree: &Json) -> (res: Result<Vec<PlannedRewrite<'a>>, PlanError>)
    ensures
        res is Ok <==> forall|i: int| 0 <= i < ops@.len() ==> plan_spec(#[trigger] ops@[i], tree@) is Ok,
        res matches Ok(pls) ==> pls@.len() == ops@.len() && forall|i: int|
            0 <= i < ops@.len() ==> (#[trigger] pls@[i]).op == &ops@[i] && plan_spec(ops@[i], tree@)
                == Ok::<Seq<Seq<char>>, PredErrV>(strings_view(pls@[i].addresses@)),
        res matches Err(pe) ==> exists|i: int|
            0 <= i < ops@.len() && (forall|j: int| 0 <= j < i ==> plan_spec(#[trigger] ops@[j], tree@) is Ok)
                && first_plan_error(pe, #[trigger] ops@[i], tree@),
{
    let mut out: Vec<PlannedRewrite<'a>> = Vec::new();
    let mut i: usize = 0;
    while i < ops.len()
        invariant
            i <= ops@.len(),
            out@.len() == i,
            forall|j: int| 0 <= j < i ==> plan_spec(#[trigger] ops@[j], tree@) is Ok,
            forall|j: int|
                0 <= j < i ==> (#[trigger] out@[j]).op == &ops@[j] && plan_spec(ops@[j], tree@)
                    == Ok::<Seq<Seq<char>>, PredErrV>(strings_view(out@[j].addresses@)),
        decreases ops@.len() - i,
    {
        match plan_rewrite(&ops[i], tree) {
            Ok(pl) => out.push(pl),
            Err(e) => return Err(e),
        }
        i = i + 1;
    }
    Ok(out)
}

// ---------------------------------------------------------------------------
// Laws
// ---------------------------------------------------------------------------

proof fn lemma_key_index_same_keys(a: Seq<(Seq<char>, JVal)>, b: Seq<(Seq<char>, JVal)>, k: Seq<char>, i: int)
    requires
        a.len() == b.len(),
        forall|j: int| 0 <= j < a.len() ==> (#[trigger] a[j]).0 == b[j].0,
    ensures
        key_index_from(a, k, i) == key_index_from(b, k, i),
    decreases a.len() - i,
{
    if 0 <= i < a.len() && a[i].0 != k {
        lemma_key_index_same_keys(a, b, k, i + 1);
    }
}

proof fn lemma_key_index_at(es: Seq<(Seq<char>, JVal)>, k: Seq<char>, p: int, j: int)
    requires
        0 <= j <= p < es.len(),
        es[p].0 == k,
        forall|m: int| 0 <= m < p ==> (#[trigger] es[m]).0 != k,
    ensures
        key_index_from(es, k, j) == Some(p),
    decreases p - j,
{
    if j < p {
        lemma_key_index_at(es, k, p, j + 1);
    }
}

/// After binding `k` to `v`, looking `k` up gives `v`.
proof fn lemma_obj_insert_lookup(es: Seq<(Seq<char>, JVal)>, k: Seq<char>, v: JVal, toml: bool)
    ensures
        lookup(obj_insert(es, k, v, toml), k) == Some(v),
{
    lemma_key_index_from(es, k, 0);
    match key_index(es, k) {
        Some(i) => {
            let out = es.update(i, (k, v));
            lemma_key_index_at(out, k, i, 0);
        },
        None => {
            if toml {
                let p = insert_pos_from(es, k, 0);
                lemma_insert_pos_bound(es, k, 0);
                let out = es.insert(p, (k, v));
                assert forall|m: int| 0 <= m < p implies (#[trigger] out[m]).0 != k by {
                    assert(out[m] == es[m]);
                }
                lemma_key_index_at(out, k, p, 0);
            } else {
                let out = es.push((k, v));
                assert forall|m: int| 0 <= m < es.len() implies (#[trigger] out[m]).0 != k by {
                    assert(out[m] == es[m]);
                }
                lemma_key_index_at(out, k, es.len() as int, 0);
            }
        },
    }
}

proof fn lemma_insert_pos_bound(es: Seq<(Seq<char>, JVal)>, k: Seq<char>, i: int)
    requires
        0 <= i,
    ensures
        0 <= insert_pos_from(es, k, i) <= es.len(),
    decreases es.len() - i,
{
    if i < es.len() && !chars_lt(k, es[i].0) {
        lemma_insert_pos_bound(es, k, i + 1);
    }
}

proof fn lemma_edit_set_reads_back(v: JVal, segs: Seq<SegV>, x: JVal, toml: bool, a: Seq<char>)
    requires
        edit_at(v, segs, ActV::SetValue(x), toml, a) is Ok,
    ensures
        walk_segs(edit_at(v, segs, ActV::SetValue(x), toml, a)->Ok_0, segs) == Some(x),
    decreases segs.len(),
{
    let nv = edit_at(v, segs, ActV::SetValue(x), toml, a)->Ok_0;
    assert(segs.len() >= 1);
    if segs.len() == 1 {
        assert(segs.drop_first().len() == 0);
        match segs[0] {
            SegV::Key(k) => {
                if let JVal::Obj(es) = v {
                    lemma_obj_insert_lookup(es, k, x, toml);
                    assert(nv == JVal::Obj(obj_insert(es, k, x, toml)));
                    assert(walk_segs(nv, segs) == walk_segs(x, segs.drop_first()));
                }
            },
            SegV::Index(n) => {
                if let JVal::Arr(xs) = v {
                    assert(nv == JVal::Arr(xs.update(n as int, x)));
                    assert(walk_segs(nv, segs) == walk_segs(x, segs.drop_first()));
                }
            },
            SegV::Any => {},
        }
    } else {
        let rest = segs.drop_first();
        match segs[0] {
            SegV::Key(k) => {
                if let JVal::Obj(es) = v {
                    let i = key_index(es, k)->0;
                    lemma_key_index_from(es, k, 0);
                    lemma_edit_set_reads_back(es[i].1, rest, x, toml, a);
                    let c = edit_at(es[i].1, rest, ActV::SetValue(x), toml, a)->Ok_0;
                    let out = es.update(i, (es[i].0, c));
                    lemma_key_index_same_keys(out, es, k, 0);
                    assert(nv == JVal::Obj(out));
                    assert(lookup(out, k) == Some(c));
                    assert(walk_segs(nv, segs) == walk_segs(c, rest));
                }
            },
            SegV::Index(n) => {
                if let JVal::Arr(xs) = v {
                    lemma_edit_set_reads_back(xs[n as int], rest, x, toml, a);
                    let c = edit_at(xs[n as int], rest, ActV::SetValue(x), toml, a)->Ok_0;
                    assert(nv == JVal::Arr(xs.update(n as int, c)));
                    assert(walk_segs(nv, segs) == walk_segs(c, rest));
                }
            },
            SegV::Any => {},
        }
    }
}

/// Writing a value at an address and reading the address back gives the
/// value written.
pub proof fn lemma_set_then_read(root: JVal, fmt: Format, addr: Seq<char>, v: JVal)
    requires
        apply_spec(root, fmt, addr, ActV::SetValue(v)) is Ok,
    ensures
        subtree_at_spec(apply_spec(root, fmt, addr, ActV::SetValue(v))->Ok_0, addr) == Some(v),
{
    let segs = parse_segments(addr)->Ok_0;
    assert(segs.len() > 0);
    if addr.len() == 0 {
        assert(parse_segments(addr) == Ok::<Seq<SegV>, ScanError>(Seq::empty()));
    }
    lemma_edit_set_reads_back(root, segs, v, fmt == Format::Toml, addr);
}

} // verus!
