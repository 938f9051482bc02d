//! Formal concept analysis over anti-unification observations.
//!
//! Builds a formal context from the holes of a template, enumerates its
//! formal concepts with `odis`, and interprets them as configuration
//! profiles: maximal sets of hole-value bindings shared by a subset of
//! instances.
//!
//! The binarisation follows conceptual scaling for nominal attributes:
//! each (hole, value) pair becomes one attribute, and each instance
//! receives a cross for exactly the value it exhibits. Optional holes
//! (`present_in < total`) generate an additional "absent" attribute for
//! the instances that lack the key.

use vstd::prelude::*;
use vstd::utf8::{encode_utf8, encode_utf8_decode_utf8, is_char_boundary};

use bit_set::BitSet;
use odis::FormalContext;
use odis::algorithms::NextClosure;
use odis::traits::ConceptEnumerator;

use crate::antiunify::{ObsV, Observations, obs_view, obs_wf};
use crate::json::{JVal, Json, group_json_view, json_clone, json_text, render_compact, view_list};
use crate::report::HoleReport;
use crate::address::strings_view;
use crate::match_pred::{find_match_addresses, match_addresses, MatchPredicate, PredV};
use crate::text::{append, append_str, chars_of, string_of, has_prefix, decimal, decimal_exec, chars_eq, chars_lt, compare_chars_exec, lemma_compare_chars_props, lemma_compare_chars_trans};

verus! {

broadcast use group_json_view;

// ---------------------------------------------------------------------------
// The formal context, as `odis` holds it
// ---------------------------------------------------------------------------

#[verifier::external_type_specification]
#[verifier::external_body]
#[verifier::reject_recursive_types(T)]
pub struct ExFormalContext<T>(FormalContext<T>);

/// The attribute labels of a context, in order.
pub uninterp spec fn context_attributes(c: FormalContext<String>) -> Seq<Seq<char>>;

/// The objects of a context, in order: each label with the indices of
/// the attributes the object has.
pub uninterp spec fn context_objects(c: FormalContext<String>) -> Seq<(Seq<char>, Set<nat>)>;

/// The concepts, as (extent, intent) index lists, that Next Closure
/// enumerates for objects with these attribute sets over this many
/// attributes, in the order it enumerates them.
pub uninterp spec fn next_closure_concepts(rows: Seq<Set<nat>>, n_attributes: nat) -> Seq<
    (Seq<nat>, Seq<nat>),
>;

pub open spec fn rows_of(objs: Seq<(Seq<char>, Set<nat>)>) -> Seq<Set<nat>> {
    objs.map_values(|o: (Seq<char>, Set<nat>)| o.1)
}

/// The objects having every attribute of `b`.
pub open spec fn extent_of(rows: Seq<Set<nat>>, b: Set<nat>) -> Set<nat> {
    Set::new(|g: nat| g < rows.len() && b.subset_of(rows[g as int]))
}

/// The attributes every object of `a` has.
pub open spec fn intent_of(rows: Seq<Set<nat>>, n_attributes: nat, a: Set<nat>) -> Set<nat> {
    Set::new(|m: nat| m < n_attributes && forall|g: nat| a.contains(g) ==> #[trigger] rows[g as int].contains(m))
}

/// `(a, b)` is a formal concept: each is the derivation of the other.
pub open spec fn is_concept(rows: Seq<Set<nat>>, n_attributes: nat, a: Set<nat>, b: Set<nat>) -> bool {
    a == extent_of(rows, b) && b == intent_of(rows, n_attributes, a)
}

pub open spec fn strictly_increasing(s: Seq<nat>) -> bool {
    forall|i: int, j: int| 0 <= i < j < s.len() ==> #[trigger] s[i] < #[trigger] s[j]
}

pub open spec fn index_lists(v: Seq<(Vec<usize>, Vec<usize>)>) -> Seq<(Seq<nat>, Seq<nat>)> {
    v.map_values(
        |c: (Vec<usize>, Vec<usize>)|
            (
                c.0@.map_values(|i: usize| i as nat),
                c.1@.map_values(|i: usize| i as nat),
            ),
    )
}

/// `odis::FormalContext::<String>::new`: a context with no objects and no
/// attributes.
#[verifier::external_body]
fn context_new() -> (res: FormalContext<String>)
    ensures
        context_attributes(res) == Seq::<Seq<char>>::empty(),
        context_objects(res) == Seq::<(Seq<char>, Set<nat>)>::empty(),
{
    FormalContext::<String>::new()
}

/// `odis::FormalContext::add_attribute` with no objects: appends an
/// attribute that no object has yet.
#[verifier::external_body]
fn context_add_attribute(ctx: &mut FormalContext<String>, label: String)
    ensures
        context_attributes(*final(ctx)) == context_attributes(*old(ctx)).push(label@),
        context_objects(*final(ctx)) == context_objects(*old(ctx)),
{
    ctx.add_attribute(label, &BitSet::new());
}

/// `odis::FormalContext::add_object`: appends an object having exactly the
/// given attributes (which must already exist).
#[verifier::external_body]
fn context_add_object(ctx: &mut FormalContext<String>, label: String, attributes: &Vec<usize>)
    requires
        forall|i: int|
            0 <= i < attributes@.len() ==> (#[trigger] attributes@[i]) < context_attributes(
                *old(ctx),
            ).len(),
    ensures
        context_objects(*final(ctx)) == context_objects(*old(ctx)).push(
            (label@, attributes@.map_values(|i: usize| i as nat).to_set()),
        ),
        context_attributes(*final(ctx)) == context_attributes(*old(ctx)),
{
    let set: BitSet = attributes.iter().copied().collect();
    ctx.add_object(label, &set);
}

/// `odis::algorithms::NextClosure::enumerate_concepts`, each extent and
/// intent listed in increasing order (as `BitSet::iter` yields them). As
/// `odis` documents, every formal concept of the context is yielded
/// exactly once, and each yielded pair is a concept.
#[verifier::external_body]
fn context_concepts(ctx: &FormalContext<String>) -> (res: Vec<(Vec<usize>, Vec<usize>)>)
    ensures
        index_lists(res@) == next_closure_concepts(
            rows_of(context_objects(*ctx)),
            context_attributes(*ctx).len(),
        ),
        forall|i: int|
            0 <= i < res@.len() ==> {
                let c = #[trigger] index_lists(res@)[i];
                &&& strictly_increasing(c.0)
                &&& strictly_increasing(c.1)
                &&& is_concept(
                    rows_of(context_objects(*ctx)),
                    context_attributes(*ctx).len(),
                    c.0.to_set(),
                    c.1.to_set(),
                )
            },
        forall|i: int, j: int|
            0 <= i < j < res@.len() ==> #[trigger] index_lists(res@)[i].0.to_set()
                != #[trigger] index_lists(res@)[j].0.to_set(),
        forall|a: Set<nat>, b: Set<nat>|
            #[trigger] is_concept(
                rows_of(context_objects(*ctx)),
                context_attributes(*ctx).len(),
                a,
                b,
            ) ==> exists|i: int|
                0 <= i < res@.len() && (#[trigger] index_lists(res@)[i]).0.to_set() == a
                    && index_lists(res@)[i].1.to_set() == b,
{
    NextClosure.enumerate_concepts(ctx).map(|(e, i)| (e.iter().collect(), i.iter().collect())).collect()
}


// ---------------------------------------------------------------------------
// Attributes
// ---------------------------------------------------------------------------

/// `v` entered into a text-sorted list of distinct (text, first value)
/// entries: unchanged when its text is already listed.
pub open spec fn text_insert(acc: Seq<(Seq<char>, JVal)>, v: JVal) -> Seq<(Seq<char>, JVal)>
    decreases acc.len(),
{
    let t = json_text(v);
    if acc.len() == 0 {
        seq![(t, v)]
    } else if acc[0].0 == t {
        acc
    } else if chars_lt(t, acc[0].0) {
        seq![(t, v)] + acc
    } else {
        seq![acc[0]] + text_insert(acc.drop_first(), v)
    }
}

/// The distinct values by rendered text, sorted by text, each represented
/// by its first occurrence.
pub open spec fn text_index(values: Seq<JVal>) -> Seq<(Seq<char>, JVal)>
    decreases values.len(),
{
    if values.len() == 0 {
        Seq::empty()
    } else {
        text_insert(text_index(values.drop_last()), values.last())
    }
}

/// Model of an attribute: the hole, its address, and the value (`None`
/// for "key absent").
pub type AttrV = (nat, Seq<char>, Option<JVal>);

pub open spec fn zip_len(obs: Seq<ObsV>, holes: Seq<HoleReport>) -> nat {
    if obs.len() < holes.len() {
        obs.len()
    } else {
        holes.len()
    }
}

/// The value attributes of the first `h` holes.
pub open spec fn value_attrs(obs: Seq<ObsV>, holes: Seq<HoleReport>, h: nat) -> Seq<AttrV>
    decreases h,
{
    if h == 0 || h > zip_len(obs, holes) {
        Seq::empty()
    } else {
        value_attrs(obs, holes, (h - 1) as nat) + text_index(obs[h - 1].1).map_values(
            |e: (Seq<char>, JVal)| ((h - 1) as nat, holes[h - 1].address@, Some(e.1)),
        )
    }
}

/// The optional holes among the first `h`.
pub open spec fn optional_holes(holes: Seq<HoleReport>, h: nat) -> Seq<nat>
    decreases h,
{
    if h == 0 || h > holes.len() {
        Seq::empty()
    } else {
        optional_holes(holes, (h - 1) as nat) + if holes[h - 1].present_in < holes[h - 1].total {
            seq![(h - 1) as nat]
        } else {
            Seq::empty()
        }
    }
}

/// The instances below `n` that a hole's observations do not cover, in
/// increasing order (so two holes lack the same instances exactly when
/// these lists are equal).
pub open spec fn absent_list(o: ObsV, n: nat) -> Seq<nat>
    decreases n,
{
    if n == 0 {
        Seq::empty()
    } else {
        absent_list(o, (n - 1) as nat) + if o.0.contains((n - 1) as nat) {
            Seq::empty()
        } else {
            seq![(n - 1) as nat]
        }
    }
}

/// Hole `j`'s absence is implied by hole `i`'s: `i`'s address is a proper
/// prefix of `j`'s ending at a `.` or `[`, and the same instances lack
/// both.
pub open spec fn redundant(addr_i: Seq<char>, abs_i: Seq<nat>, addr_j: Seq<char>, abs_j: Seq<nat>) -> bool {
    &&& crate::text::starts_with(addr_j, addr_i)
    &&& addr_j.len() > addr_i.len()
    &&& (addr_j[addr_i.len() as int] == '.' || addr_j[addr_i.len() as int] == '[')
    &&& abs_i == abs_j
}

/// One round of pruning: when `i` is still kept, every other kept entry
/// that `i` makes redundant is dropped.
pub open spec fn prune_step(keep: Seq<bool>, addrs: Seq<Seq<char>>, abs: Seq<Seq<nat>>, i: int) -> Seq<bool> {
    if keep[i] {
        Seq::new(
            keep.len(),
            |j: int| keep[j] && (j == i || !redundant(addrs[i], abs[i], addrs[j], abs[j])),
        )
    } else {
        keep
    }
}

/// Which absent attributes survive after the first `i` rounds.
pub open spec fn prune(addrs: Seq<Seq<char>>, abs: Seq<Seq<nat>>, i: nat) -> Seq<bool>
    decreases i,
{
    if i == 0 {
        Seq::new(addrs.len(), |j: int| true)
    } else {
        prune_step(prune(addrs, abs, (i - 1) as nat), addrs, abs, i - 1)
    }
}

/// The absent attributes that survive pruning, among the first `k`
/// optional holes.
pub open spec fn absent_attrs(holes: Seq<HoleReport>, opt: Seq<nat>, keep: Seq<bool>, k: nat) -> Seq<AttrV>
    decreases k,
{
    if k == 0 || k > opt.len() {
        Seq::empty()
    } else {
        absent_attrs(holes, opt, keep, (k - 1) as nat) + if keep[k - 1] {
            seq![(opt[k - 1], holes[opt[k - 1] as int].address@, None::<JVal>)]
        } else {
            Seq::empty()
        }
    }
}

pub open spec fn opt_addrs(holes: Seq<HoleReport>, opt: Seq<nat>) -> Seq<Seq<char>> {
    opt.map_values(|h: nat| holes[h as int].address@)
}

pub open spec fn opt_absent(obs: Seq<ObsV>, opt: Seq<nat>, n: nat) -> Seq<Seq<nat>> {
    opt.map_values(|h: nat| absent_list(obs[h as int], n))
}

/// All attributes of the context: every distinct value of every hole,
/// then the surviving absent attributes of the optional holes.
pub open spec fn attributes_spec(obs: Seq<ObsV>, holes: Seq<HoleReport>, n: nat) -> Seq<AttrV> {
    let opt = optional_holes(holes, zip_len(obs, holes));
    let keep = prune(opt_addrs(holes, opt), opt_absent(obs, opt, n), opt.len());
    value_attrs(obs, holes, zip_len(obs, holes)) + absent_attrs(holes, opt, keep, opt.len())
}

/// Instance `g` exhibits the attribute: it observed that value at the
/// hole, or (for an absent attribute) it does not have the hole.
pub open spec fn attr_holds(a: AttrV, obs: Seq<ObsV>, n: nat, g: nat) -> bool {
    match a.2 {
        Some(v) => exists|k: int|
            0 <= k < obs[a.0 as int].0.len() && obs[a.0 as int].0[k] == g && json_text(
                #[trigger] obs[a.0 as int].1[k],
            ) == json_text(v),
        None => g < n && !obs[a.0 as int].0.contains(g),
    }
}

/// The attributes instance `g` has.
pub open spec fn row_spec(attrs: Seq<AttrV>, obs: Seq<ObsV>, n: nat, g: nat) -> Set<nat> {
    Set::new(|a: nat| a < attrs.len() && attr_holds(attrs[a as int], obs, n, g))
}


// ---------------------------------------------------------------------------
// Building the attributes
// ---------------------------------------------------------------------------

pub open spec fn text_sorted(acc: Seq<(Seq<char>, JVal)>) -> bool {
    forall|i: int, j: int| 0 <= i < j < acc.len() ==> chars_lt(#[trigger] acc[i].0, #[trigger] acc[j].0)
}

/// Where `text_insert` puts a value: before the first entry whose text is
/// not smaller, unless that entry has the same text.
proof fn lemma_text_insert(acc: Seq<(Seq<char>, JVal)>, v: JVal, p: int)
    requires
        text_sorted(acc),
        0 <= p <= acc.len(),
        forall|i: int| 0 <= i < p ==> chars_lt(#[trigger] acc[i].0, json_text(v)),
        p < acc.len() ==> !chars_lt(acc[p].0, json_text(v)),
    ensures
        p < acc.len() && acc[p].0 == json_text(v) ==> text_insert(acc, v) == acc,
        !(p < acc.len() && acc[p].0 == json_text(v)) ==> text_insert(acc, v) == acc.insert(
            p,
            (json_text(v), v),
        ),
        text_sorted(text_insert(acc, v)),
    decreases acc.len(),
{
    let t = json_text(v);
    if acc.len() == 0 {
        assert(acc.insert(p, (t, v)) =~= seq![(t, v)]);
    } else if p == 0 {
        lemma_compare_chars_props(acc[0].0, t);
        if acc[0].0 != t {
            assert(acc.insert(p, (t, v)) =~= seq![(t, v)] + acc);
            assert forall|i: int, j: int| 0 <= i < j < (seq![(t, v)] + acc).len() implies chars_lt(
                #[trigger] (seq![(t, v)] + acc)[i].0,
                #[trigger] (seq![(t, v)] + acc)[j].0,
            ) by {
                if i == 0 && j > 1 {
                    lemma_compare_chars_trans(t, acc[0].0, acc[j - 1].0);
                }
            }
        }
    } else {
        assert(chars_lt(acc[0].0, t));
        lemma_compare_chars_props(acc[0].0, t);
        let rest = acc.drop_first();
        assert forall|i: int| 0 <= i < p - 1 implies chars_lt(#[trigger] rest[i].0, t) by {
            assert(rest[i] == acc[i + 1]);
        }
        lemma_text_insert(rest, v, p - 1);
        if p < acc.len() && acc[p].0 == t {
            assert(seq![acc[0]] + rest =~= acc);
        } else {
            assert(acc.insert(p, (t, v)) =~= seq![acc[0]] + rest.insert(p - 1, (t, v)));
        }
        let r = seq![acc[0]] + text_insert(rest, v);
        assert forall|i: int, j: int| 0 <= i < j < r.len() implies chars_lt(
            #[trigger] r[i].0,
            #[trigger] r[j].0,
        ) by {
            if i == 0 {
                // every entry of the rest is either an entry of `acc` after
                // the first, or the inserted one, which is greater
                let e = r[j];
                assert(e == text_insert(rest, v)[j - 1]);
                if p < acc.len() && acc[p].0 == t {
                    assert(e == rest[j - 1]);
                    assert(e == acc[j]);
                } else {
                    let ins = rest.insert(p - 1, (t, v));
                    assert(e == ins[j - 1]);
                    if j - 1 < p - 1 {
                        assert(e == acc[j]);
                    } else if j - 1 == p - 1 {
                        assert(e.0 == t);
                    } else {
                        assert(e == acc[j - 1]);
                    }
                }
            }
        }
    }
}

pub open spec fn index_view(texts: Seq<Vec<char>>, firsts: Seq<Json>) -> Seq<(Seq<char>, JVal)> {
    Seq::new(texts.len(), |i: int| (texts[i]@, firsts[i]@))
}

/// The distinct values by rendered text, sorted by text, with their texts.
fn text_index_exec(values: &Vec<Json>) -> (res: (Vec<Vec<char>>, Vec<Json>))
    ensures
        res.0@.len() == res.1@.len(),
        index_view(res.0@, res.1@) == text_index(view_list(values@)),
{
    let ghost vv = view_list(values@);
    let mut texts: Vec<Vec<char>> = Vec::new();
    let mut firsts: Vec<Json> = Vec::new();
    let mut k: usize = 0;
    assert(index_view(texts@, firsts@) =~= text_index(vv.take(0)));
    while k < values.len()
        invariant
            k <= values@.len(),
            vv == view_list(values@),
            texts@.len() == firsts@.len(),
            index_view(texts@, firsts@) == text_index(vv.take(k as int)),
            text_sorted(index_view(texts@, firsts@)),
        decreases values@.len() - k,
    {
        let ghost acc = index_view(texts@, firsts@);
        let x = &values[k];
        assert(vv[k as int] == x@);
        assert(vv.take(k + 1).drop_last() =~= vv.take(k as int));
        assert(vv.take(k + 1).last() == x@);
        let tx = render_compact(x);
        let mut p: usize = 0;
        while p < texts.len() && compare_chars_exec(&texts[p], &tx) < 0
            invariant
                p <= texts@.len(),
                acc == index_view(texts@, firsts@),
                forall|i: int| 0 <= i < p ==> chars_lt(#[trigger] acc[i].0, tx@),
            decreases texts@.len() - p,
        {
            p = p + 1;
        }
        proof {
            lemma_text_insert(acc, x@, p as int);
        }
        if p < texts.len() && chars_eq(&texts[p], &tx) {
        } else {
            texts.insert(p, tx);
            firsts.insert(p, json_clone(x));
            assert(index_view(texts@, firsts@) =~= acc.insert(p as int, (json_text(x@), x@)));
        }
        k = k + 1;
    }
    assert(vv.take(values@.len() as int) =~= vv);
    (texts, firsts)
}


/// A binarised attribute of the context.
#[derive(Debug)]
pub struct Attribute {
    /// Index of the hole in the observations.
    pub hole_index: usize,
    /// The address of the hole.
    pub address: String,
    /// `None` means "key absent"; `Some(v)` means the hole took value `v`.
    pub value: Option<Json>,
}

pub open spec fn opt_json(o: Option<Json>) -> Option<JVal> {
    match o {
        Some(j) => Some(j@),
        None => None,
    }
}

impl View for Attribute {
    type V = AttrV;

    open spec fn view(&self) -> AttrV {
        (self.hole_index as nat, self.address@, opt_json(self.value))
    }
}

pub open spec fn attrs_view(v: Seq<Attribute>) -> Seq<AttrV> {
    v.map_values(|a: Attribute| a@)
}

// ---------------------------------------------------------------------------
// Labels
// ---------------------------------------------------------------------------

/// Labels show a value's JSON text, cut after 37 bytes (with an ellipsis)
/// when it is longer than 40 bytes; the cut must fall on a character
/// boundary.
pub open spec fn short_fits(s: Seq<char>) -> bool {
    encode_utf8(s).len() > 40 ==> is_char_boundary(encode_utf8(s), 37)
}

pub open spec fn short_text(s: Seq<char>) -> Seq<char> {
    if encode_utf8(s).len() <= 40 {
        s
    } else {
        choose|r: Seq<char>|
            #[trigger] encode_utf8(r) == encode_utf8(s).take(37) + encode_utf8(seq!['…'])
    }
}

pub fn short_value(v: &Json) -> (res: String)
    requires
        short_fits(json_text(v@)),
    ensures
        res@ == short_text(json_text(v@)),
{
    let text = string_of(&render_compact(v));
    let s = text.as_str();
    if s.as_bytes().len() > 40 {
        let (head, _tail) = s.split_at(37);
        let mut out = chars_of(head);
        out.push('…');
        proof {
            crate::holes::lemma_encode_concat(head@, seq!['…']);
            assert(out@ =~= head@ + seq!['…']);
            let goal = encode_utf8(s@).take(37) + encode_utf8(seq!['…']);
            assert(encode_utf8(out@) =~= goal);
            let r = choose|r: Seq<char>| #[trigger] encode_utf8(r) == goal;
            encode_utf8_decode_utf8(r);
            encode_utf8_decode_utf8(out@);
            assert(r == out@);
        }
        string_of(&out)
    } else {
        text
    }
}

/// An attribute's label: `address=value` or `address=ABSENT`.
pub open spec fn label_spec(a: AttrV) -> Seq<char> {
    a.1 + seq!['='] + match a.2 {
        Some(v) => short_text(json_text(v)),
        None => "ABSENT"@,
    }
}

pub open spec fn inst_label(g: nat) -> Seq<char> {
    seq!['i', 'n', 's', 't', '_'] + decimal(g)
}

fn label_exec(a: &Attribute) -> (res: String)
    requires
        a@.2 matches Some(v) ==> short_fits(json_text(v)),
    ensures
        res@ == label_spec(a@),
{
    let mut out = chars_of(a.address.as_str());
    out.push('=');
    match &a.value {
        Some(v) => {
            let sv = short_value(v);
            append(&mut out, &chars_of(sv.as_str()));
        },
        None => {
            append_str(&mut out, "ABSENT");
        },
    }
    assert(out@ =~= label_spec(a@));
    string_of(&out)
}

fn inst_label_exec(g: usize) -> (res: String)
    ensures
        res@ == inst_label(g as nat),
{
    let mut out: Vec<char> = Vec::new();
    out.push('i');
    out.push('n');
    out.push('s');
    out.push('t');
    out.push('_');
    append(&mut out, &decimal_exec(g));
    assert(out@ =~= inst_label(g as nat));
    string_of(&out)
}


fn value_attributes(observations: &Vec<Observations>, holes: &Vec<HoleReport>) -> (res: Vec<Attribute>)
    ensures
        attrs_view(res@) == value_attrs(obs_view(observations@), holes@, zip_len(obs_view(observations@), holes@)),
{
    let ghost ov = obs_view(observations@);
    let zl = if observations.len() < holes.len() {
        observations.len()
    } else {
        holes.len()
    };
    assert(zl == zip_len(ov, holes@));
    let mut out: Vec<Attribute> = Vec::new();
    let mut h: usize = 0;
    while h < zl
        invariant
            h <= zl,
            zl == zip_len(ov, holes@),
            zl <= observations@.len(),
            zl <= holes@.len(),
            ov == obs_view(observations@),
            attrs_view(out@) == value_attrs(ov, holes@, h as nat),
        decreases zl - h,
    {
        let (texts, firsts) = text_index_exec(&observations[h].values);
        assert(ov[h as int] == observations@[h as int]@);
        let ghost ti = text_index(ov[h as int].1);
        let ghost block = ti.map_values(
            |e: (Seq<char>, JVal)| (h as nat, holes@[h as int].address@, Some(e.1)),
        );
        let ghost start = attrs_view(out@);
        let mut e: usize = 0;
        while e < firsts.len()
            invariant
                e <= firsts@.len(),
                texts@.len() == firsts@.len(),
                index_view(texts@, firsts@) == ti,
                h < holes@.len(),
                block == ti.map_values(
                    |e: (Seq<char>, JVal)| (h as nat, holes@[h as int].address@, Some(e.1)),
                ),
                attrs_view(out@) == start + block.take(e as int),
            decreases firsts@.len() - e,
        {
            assert(ti[e as int].1 == firsts@[e as int]@);
            let a = Attribute {
                hole_index: h,
                address: holes[h].address.clone(),
                value: Some(json_clone(&firsts[e])),
            };
            let ghost o1 = attrs_view(out@);
            out.push(a);
            assert(attrs_view(out@) =~= o1.push(a@));
            assert(block.take(e + 1) =~= block.take(e as int).push(block[e as int]));
            e = e + 1;
        }
        assert(block.take(firsts@.len() as int) =~= block);
        assert(attrs_view(out@) =~= value_attrs(ov, holes@, (h + 1) as nat));
        h = h + 1;
    }
    out
}

fn optional_hole_indices(holes: &Vec<HoleReport>, zl: usize) -> (res: Vec<usize>)
    requires
        zl <= holes@.len(),
    ensures
        crate::order::nat_seq(res@) == optional_holes(holes@, zl as nat),
        forall|k: int| 0 <= k < res@.len() ==> #[trigger] res@[k] < zl,
{
    let mut out: Vec<usize> = Vec::new();
    let mut h: usize = 0;
    while h < zl
        invariant
            h <= zl,
            zl <= holes@.len(),
            crate::order::nat_seq(out@) == optional_holes(holes@, h as nat),
            forall|k: int| 0 <= k < out@.len() ==> #[trigger] out@[k] < h,
        decreases zl - h,
    {
        let ghost o1 = crate::order::nat_seq(out@);
        if holes[h].present_in < holes[h].total {
            out.push(h);
        }
        assert(crate::order::nat_seq(out@) =~= optional_holes(holes@, (h + 1) as nat));
        h = h + 1;
    }
    out
}

fn absent_instances(o: &Observations, n: usize) -> (res: Vec<usize>)
    ensures
        crate::order::nat_seq(res@) == absent_list(o@, n as nat),
{
    let mut out: Vec<usize> = Vec::new();
    let mut g: usize = 0;
    while g < n
        invariant
            g <= n,
            crate::order::nat_seq(out@) == absent_list(o@, g as nat),
        decreases n - g,
    {
        let mut present = false;
        let mut k: usize = 0;
        while k < o.instance_indices.len()
            invariant
                k <= o.instance_indices@.len(),
                present <==> exists|m: int| 0 <= m < k && o.instance_indices@[m] == g,
            decreases o.instance_indices@.len() - k,
        {
            if o.instance_indices[k] == g {
                present = true;
            }
            k = k + 1;
        }
        assert(present == o@.0.contains(g as nat)) by {
            if present {
                let m = choose|m: int| 0 <= m < k && o.instance_indices@[m] == g;
                assert(o@.0[m] == g as nat);
            }
            if o@.0.contains(g as nat) {
                let m = choose|m: int| 0 <= m < o@.0.len() && o@.0[m] == g as nat;
                assert(o.instance_indices@[m] == g);
            }
        }
        if !present {
            out.push(g);
        }
        assert(crate::order::nat_seq(out@) =~= absent_list(o@, (g + 1) as nat));
        g = g + 1;
    }
    out
}

fn lists_equal(a: &Vec<usize>, b: &Vec<usize>) -> (res: bool)
    ensures
        res == (crate::order::nat_seq(a@) == crate::order::nat_seq(b@)),
{
    if a.len() != b.len() {
        assert(crate::order::nat_seq(a@).len() != crate::order::nat_seq(b@).len());
        return false;
    }
    let mut i: usize = 0;
    while i < a.len()
        invariant
            i <= a@.len(),
            a@.len() == b@.len(),
            forall|k: int| 0 <= k < i ==> a@[k] == b@[k],
        decreases a@.len() - i,
    {
        if a[i] != b[i] {
            assert(crate::order::nat_seq(a@)[i as int] != crate::order::nat_seq(b@)[i as int]);
            return false;
        }
        i = i + 1;
    }
    assert(crate::order::nat_seq(a@) =~= crate::order::nat_seq(b@));
    true
}

pub open spec fn char_lists(v: Seq<Vec<char>>) -> Seq<Seq<char>> {
    v.map_values(|c: Vec<char>| c@)
}

pub open spec fn nat_lists(v: Seq<Vec<usize>>) -> Seq<Seq<nat>> {
    v.map_values(|c: Vec<usize>| crate::order::nat_seq(c@))
}

fn is_redundant(addr_i: &Vec<char>, abs_i: &Vec<usize>, addr_j: &Vec<char>, abs_j: &Vec<usize>) -> (res: bool)
    ensures
        res == redundant(addr_i@, crate::order::nat_seq(abs_i@), addr_j@, crate::order::nat_seq(abs_j@)),
{
    has_prefix(addr_j, addr_i) && addr_j.len() > addr_i.len() && (addr_j[addr_i.len()] == '.'
        || addr_j[addr_i.len()] == '[') && lists_equal(abs_i, abs_j)
}

fn prune_absent(addrs: &Vec<Vec<char>>, abs: &Vec<Vec<usize>>) -> (res: Vec<bool>)
    requires
        addrs@.len() == abs@.len(),
    ensures
        res@ == prune(char_lists(addrs@), nat_lists(abs@), addrs@.len() as nat),
{
    let ghost av = char_lists(addrs@);
    let ghost bv = nat_lists(abs@);
    let n = addrs.len();
    let mut keep: Vec<bool> = Vec::new();
    let mut q: usize = 0;
    while q < n
        invariant
            q <= n,
            keep@.len() == q,
            forall|k: int| 0 <= k < q ==> keep@[k],
        decreases n - q,
    {
        keep.push(true);
        q = q + 1;
    }
    assert(keep@ =~= prune(av, bv, 0));
    let mut i: usize = 0;
    while i < n
        invariant
            i <= n,
            n == addrs@.len(),
            n == abs@.len(),
            av == char_lists(addrs@),
            bv == nat_lists(abs@),
            keep@ == prune(av, bv, i as nat),
            keep@.len() == n,
        decreases n - i,
    {
        let ghost before = keep@;
        if keep[i] {
            let mut j: usize = 0;
            while j < n
                invariant
                    j <= n,
                    i < n,
                    n == addrs@.len(),
                    n == abs@.len(),
                    av == char_lists(addrs@),
                    bv == nat_lists(abs@),
                    before.len() == n,
                    before[i as int],
                    keep@.len() == n,
                    forall|k: int| 0 <= k < j ==> #[trigger] keep@[k] == prune_step(before, av, bv, i as int)[k],
                    forall|k: int| j <= k < n ==> #[trigger] keep@[k] == before[k],
                decreases n - j,
            {
                if j != i && keep[j] {
                    assert(av[i as int] == addrs@[i as int]@ && av[j as int] == addrs@[j as int]@);
                    assert(bv[i as int] == crate::order::nat_seq(abs@[i as int]@));
                    assert(bv[j as int] == crate::order::nat_seq(abs@[j as int]@));
                    if is_redundant(&addrs[i], &abs[i], &addrs[j], &abs[j]) {
                        keep.set(j, false);
                    }
                }
                j = j + 1;
            }
        }
        assert(keep@ =~= prune(av, bv, (i + 1) as nat));
        i = i + 1;
    }
    keep
}

/// Every attribute of the context for these observations, holes and
/// instance count.
pub fn build_attributes(observations: &Vec<Observations>, n_instances: usize, holes: &Vec<HoleReport>) -> (res: Vec<Attribute>)
    ensures
        attrs_view(res@) == attributes_spec(obs_view(observations@), holes@, n_instances as nat),
        forall|a: int| 0 <= a < res@.len() ==> (#[trigger] res@[a]).hole_index < observations@.len(),
{
    let ghost ov = obs_view(observations@);
    let mut out = value_attributes(observations, holes);
    let zl = if observations.len() < holes.len() {
        observations.len()
    } else {
        holes.len()
    };
    assert(zl == zip_len(ov, holes@));
    let opt = optional_hole_indices(holes, zl);
    let ghost optv = crate::order::nat_seq(opt@);
    let mut addrs: Vec<Vec<char>> = Vec::new();
    let mut abs: Vec<Vec<usize>> = Vec::new();
    let mut k: usize = 0;
    while k < opt.len()
        invariant
            k <= opt@.len(),
            zl <= observations@.len(),
            zl <= holes@.len(),
            optv == crate::order::nat_seq(opt@),
            forall|m: int| 0 <= m < opt@.len() ==> #[trigger] opt@[m] < zl,
            ov == obs_view(observations@),
            addrs@.len() == k,
            abs@.len() == k,
            char_lists(addrs@) == opt_addrs(holes@, optv).take(k as int),
            nat_lists(abs@) == opt_absent(ov, optv, n_instances as nat).take(k as int),
        decreases opt@.len() - k,
    {
        let h = opt[k];
        assert(ov[h as int] == observations@[h as int]@);
        addrs.push(chars_of(holes[h].address.as_str()));
        abs.push(absent_instances(&observations[h], n_instances));
        assert(char_lists(addrs@) =~= opt_addrs(holes@, optv).take(k + 1));
        assert(nat_lists(abs@) =~= opt_absent(ov, optv, n_instances as nat).take(k + 1));
        k = k + 1;
    }
    assert(opt_addrs(holes@, optv).take(opt@.len() as int) =~= opt_addrs(holes@, optv));
    assert(opt_absent(ov, optv, n_instances as nat).take(opt@.len() as int) =~= opt_absent(ov, optv, n_instances as nat));
    let keep = prune_absent(&addrs, &abs);
    proof {
        lemma_prune_len(char_lists(addrs@), nat_lists(abs@), addrs@.len() as nat);
    }
    let ghost values_part = attrs_view(out@);
    let mut k: usize = 0;
    while k < opt.len()
        invariant
            k <= opt@.len(),
            zl <= observations@.len(),
            zl <= holes@.len(),
            keep@.len() == opt@.len(),
            optv == crate::order::nat_seq(opt@),
            forall|m: int| 0 <= m < opt@.len() ==> #[trigger] opt@[m] < zl,
            attrs_view(out@) == values_part + absent_attrs(holes@, optv, keep@, k as nat),
        decreases opt@.len() - k,
    {
        let ghost o1 = attrs_view(out@);
        if keep[k] {
            let h = opt[k];
            let a = Attribute { hole_index: h, address: holes[h].address.clone(), value: None };
            out.push(a);
            assert(attrs_view(out@) =~= o1.push(a@));
        }
        assert(attrs_view(out@) =~= values_part + absent_attrs(holes@, optv, keep@, (k + 1) as nat));
        k = k + 1;
    }
    proof {
        assert(optv == optional_holes(holes@, zip_len(ov, holes@)));
        lemma_attr_holes(ov, holes@, zip_len(ov, holes@));
        assert forall|a: int| 0 <= a < out@.len() implies (#[trigger] out@[a]).hole_index < observations@.len() by {
            assert(attrs_view(out@)[a] == out@[a]@);
            assert(attrs_view(out@)[a].0 == out@[a].hole_index as nat);
            if a >= values_part.len() {
                lemma_absent_attr_holes(holes@, optv, keep@, opt@.len() as nat, zl as nat);
                assert(attrs_view(out@)[a] == absent_attrs(holes@, optv, keep@, opt@.len() as nat)[a - values_part.len()]);
            } else {
                assert(values_part == value_attrs(ov, holes@, zl as nat));
                assert(attrs_view(out@)[a] == values_part[a]);
                assert(value_attrs(ov, holes@, zl as nat)[a].0 < zl);
            }
        }
    }
    out
}

proof fn lemma_attr_holes(obs: Seq<ObsV>, holes: Seq<HoleReport>, h: nat)
    requires
        h <= zip_len(obs, holes),
    ensures
        forall|a: int| 0 <= a < value_attrs(obs, holes, h).len() ==> #[trigger] value_attrs(obs, holes, h)[a].0 < h,
    decreases h,
{
    if h > 0 {
        lemma_attr_holes(obs, holes, (h - 1) as nat);
        let prev = value_attrs(obs, holes, (h - 1) as nat);
        let block = text_index(obs[h - 1].1).map_values(
            |e: (Seq<char>, JVal)| ((h - 1) as nat, holes[h - 1].address@, Some(e.1)),
        );
        assert forall|a: int| 0 <= a < value_attrs(obs, holes, h).len() implies #[trigger] value_attrs(obs, holes, h)[a].0 < h by {
            if a < prev.len() {
                assert(value_attrs(obs, holes, h)[a] == prev[a]);
            } else {
                assert(value_attrs(obs, holes, h)[a] == block[a - prev.len()]);
            }
        }
    }
}

proof fn lemma_absent_attr_holes(holes: Seq<HoleReport>, opt: Seq<nat>, keep: Seq<bool>, k: nat, bound: nat)
    requires
        k <= opt.len(),
        forall|m: int| 0 <= m < opt.len() ==> #[trigger] opt[m] < bound,
    ensures
        forall|a: int| 0 <= a < absent_attrs(holes, opt, keep, k).len() ==> #[trigger] absent_attrs(holes, opt, keep, k)[a].0 < bound,
    decreases k,
{
    if k > 0 {
        lemma_absent_attr_holes(holes, opt, keep, (k - 1) as nat, bound);
        let prev = absent_attrs(holes, opt, keep, (k - 1) as nat);
        assert forall|a: int| 0 <= a < absent_attrs(holes, opt, keep, k).len() implies #[trigger] absent_attrs(holes, opt, keep, k)[a].0 < bound by {
            if a < prev.len() {
                assert(absent_attrs(holes, opt, keep, k)[a] == prev[a]);
            }
        }
    }
}

proof fn lemma_prune_len(addrs: Seq<Seq<char>>, abs: Seq<Seq<nat>>, i: nat)
    ensures
        prune(addrs, abs, i).len() == addrs.len(),
    decreases i,
{
    if i > 0 {
        lemma_prune_len(addrs, abs, (i - 1) as nat);
    }
}


// ---------------------------------------------------------------------------
// The context
// ---------------------------------------------------------------------------

#[verifier::loop_isolation(false)]
fn attr_holds_exec(a: &Attribute, observations: &Vec<Observations>, n: usize, g: usize) -> (res: bool)
    requires
        a.hole_index < observations@.len(),
        obs_wf(obs_view(observations@), n as nat),
    ensures
        res == attr_holds(a@, obs_view(observations@), n as nat, g as nat),
{
    let ghost ov = obs_view(observations@);
    let o = &observations[a.hole_index];
    assert(ov[a.hole_index as int] == o@);
    assert(o@.0.len() == o@.1.len());
    match &a.value {
        Some(v) => {
            let tv = render_compact(v);
            assert(a@.2 == Some(v@));
            let mut k: usize = 0;
            while k < o.instance_indices.len()
                invariant
                    k <= o.instance_indices@.len(),
                    a@.2 == Some(v@),
                    o.instance_indices@.len() == o.values@.len(),
                    ov[a.hole_index as int] == o@,
                    tv@ == json_text(v@),
                    forall|m: int|
                        0 <= m < k ==> !(o.instance_indices@[m] == g && json_text(
                            #[trigger] o@.1[m],
                        ) == json_text(v@)),
                decreases o.instance_indices@.len() - k,
            {
                assert(o@.1[k as int] == o.values@[k as int]@);
                let rk = render_compact(&o.values[k]);
                if o.instance_indices[k] == g && chars_eq(&rk, &tv) {
                    assert(o@.0[k as int] == g as nat);
                    assert(json_text(o@.1[k as int]) == json_text(v@));
                    assert(ov[a.hole_index as int].1[k as int] == o@.1[k as int]);
                    assert(ov[a.hole_index as int].0[k as int] == g as nat);
                    assert(a@.2 == Some(v@));
                    let ghost h = a@.0;
                    assert(0 <= k < ov[h as int].0.len() && ov[h as int].0[k as int] == g && json_text(
                        ov[h as int].1[k as int],
                    ) == json_text(v@));
                    assert(attr_holds(a@, ov, n as nat, g as nat));
                    return true;
                }
                k = k + 1;
            }
            proof {
                if attr_holds(a@, ov, n as nat, g as nat) {
                    let m = choose|m: int|
                        0 <= m < o@.0.len() && o@.0[m] == g as nat && json_text(
                            #[trigger] o@.1[m],
                        ) == json_text(v@);
                    assert(o.instance_indices@[m] == g);
                }
            }
            false
        },
        None => {
            let mut present = false;
            let mut k: usize = 0;
            while k < o.instance_indices.len()
                invariant
                    k <= o.instance_indices@.len(),
                    present <==> exists|m: int| 0 <= m < k && o.instance_indices@[m] == g,
                decreases o.instance_indices@.len() - k,
            {
                if o.instance_indices[k] == g {
                    present = true;
                }
                k = k + 1;
            }
            assert(present == o@.0.contains(g as nat)) by {
                if present {
                    let m = choose|m: int| 0 <= m < k && o.instance_indices@[m] == g;
                    assert(o@.0[m] == g as nat);
                }
                if o@.0.contains(g as nat) {
                    let m = choose|m: int| 0 <= m < o@.0.len() && o@.0[m] == g as nat;
                    assert(o.instance_indices@[m] == g);
                }
            }
            g < n && !present
        },
    }
}

pub open spec fn nat_seq_of(v: Seq<usize>) -> Seq<nat> {
    crate::order::nat_seq(v)
}

/// The attributes instance `g` has, in increasing order.
fn row_exec(attrs: &Vec<Attribute>, observations: &Vec<Observations>, n: usize, g: usize) -> (res: Vec<usize>)
    requires
        forall|a: int| 0 <= a < attrs@.len() ==> (#[trigger] attrs@[a]).hole_index < observations@.len(),
        obs_wf(obs_view(observations@), n as nat),
    ensures
        crate::order::nat_seq(res@).to_set() == row_spec(attrs_view(attrs@), obs_view(observations@), n as nat, g as nat),
        forall|i: int| 0 <= i < res@.len() ==> #[trigger] res@[i] < attrs@.len(),
{
    let ghost av = attrs_view(attrs@);
    let ghost ov = obs_view(observations@);
    let mut out: Vec<usize> = Vec::new();
    let mut a: usize = 0;
    while a < attrs.len()
        invariant
            a <= attrs@.len(),
            av == attrs_view(attrs@),
            forall|x: int| 0 <= x < attrs@.len() ==> (#[trigger] attrs@[x]).hole_index < observations@.len(),
            obs_wf(ov, n as nat),
            ov == obs_view(observations@),
            forall|i: int|
                0 <= i < out@.len() ==> #[trigger] out@[i] < a && attr_holds(av[out@[i] as int], ov, n as nat, g as nat),
            forall|x: int|
                0 <= x < a && #[trigger] attr_holds(av[x], ov, n as nat, g as nat) ==> exists|i: int|
                    0 <= i < out@.len() && out@[i] == x,
        decreases attrs@.len() - a,
    {
        assert(av[a as int] == attrs@[a as int]@);
        let ghost o1 = out@;
        if attr_holds_exec(&attrs[a], observations, n, g) {
            out.push(a);
            assert forall|x: int|
                0 <= x < a + 1 && #[trigger] attr_holds(av[x], ov, n as nat, g as nat) implies exists|i: int|
                    0 <= i < out@.len() && out@[i] == x by {
                if x < a {
                    let i = choose|i: int| 0 <= i < o1.len() && o1[i] == x;
                    assert(out@[i] == x);
                } else {
                    assert(out@[o1.len() as int] == x);
                }
            }
        }
        a = a + 1;
    }
    assert forall|x: nat| crate::order::nat_seq(out@).to_set().contains(x) <==> row_spec(av, ov, n as nat, g as nat).contains(x) by {
        if crate::order::nat_seq(out@).to_set().contains(x) {
            let i = choose|i: int| 0 <= i < out@.len() && crate::order::nat_seq(out@)[i] == x;
            assert(out@[i] == x);
        }
        if row_spec(av, ov, n as nat, g as nat).contains(x) {
            assert(attr_holds(av[x as int], ov, n as nat, g as nat));
            let i = choose|i: int| 0 <= i < out@.len() && out@[i] == x;
            assert(crate::order::nat_seq(out@)[i] == x);
        }
    }
    assert(crate::order::nat_seq(out@).to_set() =~= row_spec(av, ov, n as nat, g as nat));
    out
}

/// Every value of every attribute can be labelled.
pub open spec fn labels_fit(attrs: Seq<AttrV>) -> bool {
    forall|a: int| 0 <= a < attrs.len() ==> ((#[trigger] attrs[a]).2 matches Some(v) ==> short_fits(json_text(v)))
}

/// Build the formal context: objects are instances, attributes are the
/// binarised (hole, value) pairs plus the surviving absent attributes.
pub fn build_context(observations: &Vec<Observations>, n_instances: usize, holes: &Vec<HoleReport>) -> (res: (Vec<Attribute>, FormalContext<String>))
    requires
        obs_wf(obs_view(observations@), n_instances as nat),
        labels_fit(attributes_spec(obs_view(observations@), holes@, n_instances as nat)),
    ensures
        attrs_view(res.0@) == attributes_spec(obs_view(observations@), holes@, n_instances as nat),
        context_attributes(res.1) == attributes_spec(obs_view(observations@), holes@, n_instances as nat).map_values(
            |a: AttrV| label_spec(a),
        ),
        context_objects(res.1) == Seq::new(
            n_instances as nat,
            |g: int|
                (
                    inst_label(g as nat),
                    row_spec(
                        attributes_spec(obs_view(observations@), holes@, n_instances as nat),
                        obs_view(observations@),
                        n_instances as nat,
                        g as nat,
                    ),
                ),
        ),
{
    let ghost ov = obs_view(observations@);
    let attributes = build_attributes(observations, n_instances, holes);
    let ghost av = attrs_view(attributes@);
    let mut ctx = context_new();
    let mut a: usize = 0;
    while a < attributes.len()
        invariant
            a <= attributes@.len(),
            av == attrs_view(attributes@),
            labels_fit(av),
            context_attributes(ctx) == av.take(a as int).map_values(|x: AttrV| label_spec(x)),
            context_objects(ctx) == Seq::<(Seq<char>, Set<nat>)>::empty(),
        decreases attributes@.len() - a,
    {
        assert(av[a as int] == attributes@[a as int]@);
        let label = label_exec(&attributes[a]);
        context_add_attribute(&mut ctx, label);
        assert(av.take(a + 1).map_values(|x: AttrV| label_spec(x)) =~= av.take(a as int).map_values(
            |x: AttrV| label_spec(x),
        ).push(label_spec(av[a as int])));
        a = a + 1;
    }
    assert(av.take(attributes@.len() as int) =~= av);
    let mut g: usize = 0;
    while g < n_instances
        invariant
            g <= n_instances,
            av == attrs_view(attributes@),
            ov == obs_view(observations@),
            obs_wf(ov, n_instances as nat),
            forall|x: int| 0 <= x < attributes@.len() ==> (#[trigger] attributes@[x]).hole_index < observations@.len(),
            context_attributes(ctx) == av.map_values(|x: AttrV| label_spec(x)),
            context_objects(ctx) == Seq::new(
                g as nat,
                |h: int| (inst_label(h as nat), row_spec(av, ov, n_instances as nat, h as nat)),
            ),
        decreases n_instances - g,
    {
        let row = row_exec(&attributes, observations, n_instances, g);
        let label = inst_label_exec(g);
        context_add_object(&mut ctx, label, &row);
        assert(context_objects(ctx) =~= Seq::new(
            (g + 1) as nat,
            |h: int| (inst_label(h as nat), row_spec(av, ov, n_instances as nat, h as nat)),
        ));
        g = g + 1;
    }
    (attributes, ctx)
}


// ---------------------------------------------------------------------------
// Profiles
// ---------------------------------------------------------------------------

/// One entry of a profile's intent.
#[derive(Debug)]
pub struct ProfileBinding {
    /// Hole address.
    pub address: String,
    /// Index into the observations.
    pub hole_index: usize,
    /// The value, or `None` for "key absent".
    pub value: Option<Json>,
}

/// A formal concept read as a profile: a maximal set of instances sharing
/// a maximal set of hole-value bindings.
#[derive(Debug)]
pub struct Profile {
    /// Instance indices forming the extent.
    pub instances: Vec<usize>,
    /// Hole-value bindings forming the intent.
    pub bindings: Vec<ProfileBinding>,
    /// Number of instances in the extent.
    pub support: usize,
}

/// The outcome of concept analysis over one group's observations.
#[derive(Debug)]
pub struct FcaResult {
    /// Non-trivial formal concepts, by descending support.
    pub profiles: Vec<Profile>,
    /// How many formal concepts were enumerated (before filtering).
    pub total_concepts: usize,
    /// Number of attributes in the formal context.
    pub n_attributes: usize,
}

impl View for ProfileBinding {
    type V = AttrV;

    open spec fn view(&self) -> AttrV {
        (self.hole_index as nat, self.address@, opt_json(self.value))
    }
}

/// Model of a profile: instances, bindings, support.
pub type ProfileV = (Seq<nat>, Seq<AttrV>, nat);

impl View for Profile {
    type V = ProfileV;

    open spec fn view(&self) -> ProfileV {
        (
            crate::order::nat_seq(self.instances@),
            self.bindings@.map_values(|b: ProfileBinding| b@),
            self.support as nat,
        )
    }
}

pub open spec fn profiles_view(v: Seq<Profile>) -> Seq<ProfileV> {
    v.map_values(|p: Profile| p@)
}

/// The bindings name at least two different holes.
pub open spec fn two_holes(bs: Seq<AttrV>) -> bool {
    exists|i: int, j: int| 0 <= i < bs.len() && 0 <= j < bs.len() && #[trigger] bs[i].0 != #[trigger] bs[j].0
}

/// The profile a concept gives, unless it is trivial: an empty extent, the
/// full extent with an empty intent, or bindings on fewer than two holes.
pub open spec fn candidate(c: (Seq<nat>, Seq<nat>), attrs: Seq<AttrV>, n: nat) -> Option<ProfileV> {
    let bindings = c.1.map_values(|m: nat| attrs[m as int]);
    if c.0.len() == 0 {
        None
    } else if c.0.len() == n && c.1.len() == 0 {
        None
    } else if !two_holes(bindings) {
        None
    } else {
        Some((c.0, bindings, c.0.len()))
    }
}

/// The profiles of the first `k` concepts, in concept order.
pub open spec fn candidates(cs: Seq<(Seq<nat>, Seq<nat>)>, attrs: Seq<AttrV>, n: nat, k: nat) -> Seq<ProfileV>
    decreases k,
{
    if k == 0 || k > cs.len() {
        Seq::empty()
    } else {
        candidates(cs, attrs, n, (k - 1) as nat) + match candidate(cs[k - 1], attrs, n) {
            Some(p) => seq![p],
            None => Seq::empty(),
        }
    }
}

/// `out` is `ps` stably ordered by descending support.
pub open spec fn by_support(out: Seq<ProfileV>, ps: Seq<ProfileV>) -> bool {
    exists|p: Seq<nat>| #[trigger] ordered_as(out, ps, p)
}

pub open spec fn supports_of(ps: Seq<ProfileV>) -> Seq<nat> {
    ps.map_values(|q: ProfileV| q.2)
}

/// `out` lists `ps` in the order `p`, a stable descending order of
/// support.
pub open spec fn ordered_as(out: Seq<ProfileV>, ps: Seq<ProfileV>, p: Seq<nat>) -> bool {
    &&& crate::order::stable_by_count_desc(supports_of(ps), p)
    &&& out.len() == ps.len()
    &&& forall|i: int| 0 <= i < out.len() ==> #[trigger] out[i] == ps[p[i] as int]
}

fn clone_opt_json(v: &Option<Json>) -> (res: Option<Json>)
    ensures
        opt_json(res) == opt_json(*v),
{
    match v {
        Some(j) => Some(json_clone(j)),
        None => None,
    }
}

fn clone_profile(p: &Profile) -> (res: Profile)
    ensures
        res@ == p@,
{
    let mut instances: Vec<usize> = Vec::new();
    let mut i: usize = 0;
    while i < p.instances.len()
        invariant
            i <= p.instances@.len(),
            instances@ == p.instances@.take(i as int),
        decreases p.instances@.len() - i,
    {
        instances.push(p.instances[i]);
        i = i + 1;
        assert(instances@ =~= p.instances@.take(i as int));
    }
    assert(p.instances@.take(p.instances@.len() as int) =~= p.instances@);
    let mut bindings: Vec<ProfileBinding> = Vec::new();
    let mut j: usize = 0;
    while j < p.bindings.len()
        invariant
            j <= p.bindings@.len(),
            bindings@.len() == j,
            forall|k: int| 0 <= k < j ==> (#[trigger] bindings@[k])@ == p.bindings@[k]@,
        decreases p.bindings@.len() - j,
    {
        let b = &p.bindings[j];
        bindings.push(ProfileBinding {
            address: b.address.clone(),
            hole_index: b.hole_index,
            value: clone_opt_json(&b.value),
        });
        j = j + 1;
    }
    let res = Profile { instances, bindings, support: p.support };
    assert(res@.1 =~= p@.1);
    res
}

/// The bindings a concept's intent names.
pub open spec fn intent_bindings(c: (Seq<nat>, Seq<nat>), attrs: Seq<AttrV>) -> Seq<AttrV> {
    c.1.map_values(|m: nat| attrs[m as int])
}

/// A concept a profile must be read from: some instance shares it, its
/// bindings name two different holes, and it is not the whole fleet with
/// nothing shared.
pub open spec fn informative(c: (Seq<nat>, Seq<nat>), attrs: Seq<AttrV>, n: nat) -> bool {
    &&& c.0.len() > 0
    &&& !(c.0.len() == n && c.1.len() == 0)
    &&& two_holes(intent_bindings(c, attrs))
}

proof fn lemma_candidates_keep(cs: Seq<(Seq<nat>, Seq<nat>)>, attrs: Seq<AttrV>, n: nat, k: nat, j: int)
    requires
        0 <= j < k <= cs.len(),
        informative(cs[j], attrs, n),
    ensures
        candidates(cs, attrs, n, k).contains((cs[j].0, intent_bindings(cs[j], attrs), cs[j].0.len())),
    decreases k,
{
    let x = (cs[j].0, intent_bindings(cs[j], attrs), cs[j].0.len());
    let prev = candidates(cs, attrs, n, (k - 1) as nat);
    if j == k - 1 {
        assert(candidate(cs[j], attrs, n) == Some(x));
        let full = candidates(cs, attrs, n, k);
        assert(full == prev + seq![x]);
        assert(full[prev.len() as int] == x);
    } else {
        lemma_candidates_keep(cs, attrs, n, (k - 1) as nat, j);
        let full = candidates(cs, attrs, n, k);
        let tail = match candidate(cs[k - 1], attrs, n) {
            Some(p) => seq![p],
            None => Seq::empty(),
        };
        assert(full == prev + tail);
        let q = choose|q: int| 0 <= q < prev.len() && prev[q] == x;
        assert(full[q] == x);
    }
}

/// Every informative concept is read as a profile: its extent, the
/// bindings of its intent, and the extent's size as support. A concept
/// shared by a single instance is no exception.
pub proof fn lemma_informative_concepts_kept(
    cs: Seq<(Seq<nat>, Seq<nat>)>,
    attrs: Seq<AttrV>,
    n: nat,
    out: Seq<ProfileV>,
)
    requires
        by_support(out, candidates(cs, attrs, n, cs.len())),
    ensures
        forall|j: int|
            0 <= j < cs.len() && informative(#[trigger] cs[j], attrs, n) ==> out.contains(
                (cs[j].0, intent_bindings(cs[j], attrs), cs[j].0.len()),
            ),
{
    let ps = candidates(cs, attrs, n, cs.len());
    let p = choose|p: Seq<nat>| #[trigger] ordered_as(out, ps, p);
    assert forall|j: int| 0 <= j < cs.len() && informative(#[trigger] cs[j], attrs, n) implies out.contains(
        (cs[j].0, intent_bindings(cs[j], attrs), cs[j].0.len()),
    ) by {
        let x = (cs[j].0, intent_bindings(cs[j], attrs), cs[j].0.len());
        lemma_candidates_keep(cs, attrs, n, cs.len(), j);
        let t = choose|t: int| 0 <= t < ps.len() && ps[t] == x;
        assert(supports_of(ps).len() == ps.len());
        crate::order::lemma_permutation_onto(p, ps.len(), t as nat);
        let i = choose|i: int| 0 <= i < p.len() && p[i] == t as nat;
        assert(out[i] == ps[p[i] as int]);
        assert(out[i] == x);
    }
}

/// Read concepts as profiles, dropping trivial ones, most supported first.
pub fn interpret_concepts(concepts: &Vec<(Vec<usize>, Vec<usize>)>, attributes: &Vec<Attribute>, n_instances: usize) -> (res: Vec<Profile>)
    requires
        forall|c: int, k: int|
            0 <= c < concepts@.len() && 0 <= k < concepts@[c].1@.len() ==> #[trigger] concepts@[c].1@[k]
                < attributes@.len(),
    ensures
        by_support(
            profiles_view(res@),
            candidates(index_lists(concepts@), attrs_view(attributes@), n_instances as nat, concepts@.len() as nat),
        ),
        forall|j: int|
            0 <= j < concepts@.len() && informative(
                #[trigger] index_lists(concepts@)[j],
                attrs_view(attributes@),
                n_instances as nat,
            ) ==> profiles_view(res@).contains(
                (
                    index_lists(concepts@)[j].0,
                    intent_bindings(index_lists(concepts@)[j], attrs_view(attributes@)),
                    index_lists(concepts@)[j].0.len(),
                ),
            ),
{
    let ghost cs = index_lists(concepts@);
    let ghost av = attrs_view(attributes@);
    let mut kept: Vec<Profile> = Vec::new();
    let mut supports: Vec<usize> = Vec::new();
    let mut c: usize = 0;
    while c < concepts.len()
        invariant
            c <= concepts@.len(),
            cs == index_lists(concepts@),
            av == attrs_view(attributes@),
            forall|x: int, k: int|
                0 <= x < concepts@.len() && 0 <= k < concepts@[x].1@.len() ==> #[trigger] concepts@[x].1@[k]
                    < attributes@.len(),
            profiles_view(kept@) == candidates(cs, av, n_instances as nat, c as nat),
            supports@.len() == kept@.len(),
            forall|k: int| 0 <= k < kept@.len() ==> #[trigger] supports@[k] == kept@[k].support,
        decreases concepts@.len() - c,
    {
        let extent = &concepts[c].0;
        let intent = &concepts[c].1;
        assert(cs[c as int] == (crate::order::nat_seq(extent@), crate::order::nat_seq(intent@)));
        let ghost o1 = profiles_view(kept@);
        let support = extent.len();
        let skip = support == 0 || (support == n_instances && intent.len() == 0);
        if !skip {
            let mut bindings: Vec<ProfileBinding> = Vec::new();
            let mut k: usize = 0;
            while k < intent.len()
                invariant
                    k <= intent@.len(),
                    av == attrs_view(attributes@),
                    forall|m: int| 0 <= m < intent@.len() ==> #[trigger] intent@[m] < attributes@.len(),
                    bindings@.len() == k,
                    forall|m: int| 0 <= m < k ==> (#[trigger] bindings@[m])@ == av[intent@[m] as int],
                decreases intent@.len() - k,
            {
                let a = &attributes[intent[k]];
                assert(av[intent@[k as int] as int] == a@);
                bindings.push(ProfileBinding {
                    address: a.address.clone(),
                    hole_index: a.hole_index,
                    value: clone_opt_json(&a.value),
                });
                k = k + 1;
            }
            let ghost bv = bindings@.map_values(|b: ProfileBinding| b@);
            assert(bv =~= crate::order::nat_seq(intent@).map_values(|m: nat| av[m as int]));
            // distinct holes
            let mut two = false;
            let mut q: usize = 1;
            while q < bindings.len()
                invariant
                    1 <= q || bindings@.len() == 0,
                    q <= bindings@.len() || bindings@.len() == 0,
                    bv == bindings@.map_values(|b: ProfileBinding| b@),
                    two <==> exists|m: int| 0 <= m < q && m < bv.len() && #[trigger] bv[m].0 != bv[0].0,
                decreases bindings@.len() - q,
            {
                if bindings[q].hole_index != bindings[0].hole_index {
                    two = true;
                    assert(bv[q as int].0 != bv[0].0);
                }
                q = q + 1;
            }
            proof {
                if two {
                    let m = choose|m: int| 0 <= m < q && m < bv.len() && #[trigger] bv[m].0 != bv[0].0;
                    assert(bv[m].0 != bv[0].0);
                }
                if two_holes(bv) {
                    let (x, y) = choose|x: int, y: int|
                        0 <= x < bv.len() && 0 <= y < bv.len() && #[trigger] bv[x].0 != #[trigger] bv[y].0;
                    if bv[x].0 != bv[0].0 {
                        assert(bv[x].0 != bv[0].0);
                    } else {
                        assert(bv[y].0 != bv[0].0);
                    }
                }
            }
            if two {
                let mut instances: Vec<usize> = Vec::new();
                let mut i: usize = 0;
                while i < extent.len()
                    invariant
                        i <= extent@.len(),
                        instances@ == extent@.take(i as int),
                    decreases extent@.len() - i,
                {
                    instances.push(extent[i]);
                    i = i + 1;
                    assert(instances@ =~= extent@.take(i as int));
                }
                assert(extent@.take(extent@.len() as int) =~= extent@);
                let prof = Profile { instances, bindings, support };
                kept.push(prof);
                supports.push(support);
                assert(profiles_view(kept@) =~= o1.push(
                    (crate::order::nat_seq(extent@), bv, support as nat),
                ));
            }
        }
        assert(profiles_view(kept@) =~= candidates(cs, av, n_instances as nat, (c + 1) as nat));
        c = c + 1;
    }
    let order = stable_order_by_count_desc_for(&supports);
    let ghost kv = profiles_view(kept@);
    let mut out: Vec<Profile> = Vec::new();
    let mut q: usize = 0;
    while q < order.len()
        invariant
            q <= order@.len(),
            kv == profiles_view(kept@),
            crate::order::stable_by_count_desc(crate::order::nat_seq(supports@), crate::order::nat_seq(order@)),
            supports@.len() == kept@.len(),
            out@.len() == q,
            forall|k: int| 0 <= k < q ==> (#[trigger] out@[k])@ == kv[order@[k] as int],
        decreases order@.len() - q,
    {
        let ix = order[q];
        assert(crate::order::nat_seq(order@)[q as int] == ix as nat);
        out.push(clone_profile(&kept[ix]));
        q = q + 1;
    }
    proof {
        let ov = profiles_view(out@);
        let p = crate::order::nat_seq(order@);
        assert(supports_of(kv) =~= crate::order::nat_seq(supports@));
        assert forall|i: int| 0 <= i < ov.len() implies #[trigger] ov[i] == kv[p[i] as int] by {
            assert(ov[i] == out@[i]@);
        }
        assert(ordered_as(ov, kv, p));
        assert(index_lists(concepts@).len() == concepts@.len());
        lemma_informative_concepts_kept(cs, av, n_instances as nat, ov);
    }
    out
}

fn stable_order_by_count_desc_for(supports: &Vec<usize>) -> (res: Vec<usize>)
    ensures
        crate::order::stable_by_count_desc(crate::order::nat_seq(supports@), crate::order::nat_seq(res@)),
{
    crate::order::stable_order_by_count_desc(supports)
}


/// The attribute sets of the instances.
pub open spec fn rows_spec(attrs: Seq<AttrV>, obs: Seq<ObsV>, n: nat) -> Seq<Set<nat>> {
    Seq::new(n, |g: int| row_spec(attrs, obs, n, g as nat))
}

/// Every profile among the first `k` candidates comes from one of the
/// first `k` concepts.
proof fn lemma_candidate_source(cs: Seq<(Seq<nat>, Seq<nat>)>, attrs: Seq<AttrV>, n: nat, k: nat, j: int)
    requires
        0 <= j < candidates(cs, attrs, n, k).len(),
    ensures
        exists|c: int| 0 <= c < k && c < cs.len() && #[trigger] candidate(cs[c], attrs, n) == Some(
            candidates(cs, attrs, n, k)[j],
        ),
    decreases k,
{
    if k > 0 && k <= cs.len() {
        let prev = candidates(cs, attrs, n, (k - 1) as nat);
        if j < prev.len() {
            lemma_candidate_source(cs, attrs, n, (k - 1) as nat, j);
            assert(candidates(cs, attrs, n, k)[j] == prev[j]);
            let c = choose|c: int| 0 <= c < k - 1 && c < cs.len() && #[trigger] candidate(cs[c], attrs, n) == Some(prev[j]);
            assert(candidate(cs[c], attrs, n) == Some(candidates(cs, attrs, n, k)[j]));
        } else {
            assert(candidate(cs[k - 1], attrs, n) == Some(candidates(cs, attrs, n, k)[j]));
        }
    }
}

/// What a profile promises: each of its instances exhibits each of its
/// bindings.
pub open spec fn profile_holds(p: ProfileV, obs: Seq<ObsV>, n: nat) -> bool {
    forall|k: int, b: int|
        0 <= k < p.0.len() && 0 <= b < p.1.len() ==> attr_holds(#[trigger] p.1[b], obs, n, #[trigger] p.0[k])
}

proof fn lemma_concept_profile(
    c: (Seq<nat>, Seq<nat>),
    attrs: Seq<AttrV>,
    obs: Seq<ObsV>,
    n: nat,
)
    requires
        is_concept(rows_spec(attrs, obs, n), attrs.len(), c.0.to_set(), c.1.to_set()),
        candidate(c, attrs, n) is Some,
    ensures
        profile_holds(candidate(c, attrs, n)->0, obs, n),
{
    let p = candidate(c, attrs, n)->0;
    let rows = rows_spec(attrs, obs, n);
    assert forall|k: int, b: int| 0 <= k < p.0.len() && 0 <= b < p.1.len() implies attr_holds(
        #[trigger] p.1[b],
        obs,
        n,
        #[trigger] p.0[k],
    ) by {
        let g = c.0[k];
        assert(c.0.to_set().contains(g));
        assert(extent_of(rows, c.1.to_set()).contains(g));
        assert(c.1.to_set().subset_of(rows[g as int]));
        let m = c.1[b];
        assert(c.1.to_set().contains(m));
        assert(rows[g as int].contains(m));
        assert(row_spec(attrs, obs, n, g).contains(m));
        assert(p.1[b] == attrs[m as int]);
    }
}

/// Run concept analysis on one group's observations: `n_instances` is the
/// number of instances and `holes` gives each hole's address and
/// optionality. With fewer than two holes there is nothing to co-occur and
/// the result is empty.
pub fn analyse(observations: &Vec<Observations>, n_instances: usize, holes: &Vec<HoleReport>) -> (res: FcaResult)
    requires
        observations@.len() >= 2 ==> obs_wf(obs_view(observations@), n_instances as nat),
        observations@.len() >= 2 ==> labels_fit(
            attributes_spec(obs_view(observations@), holes@, n_instances as nat),
        ),
    ensures
        observations@.len() < 2 ==> res.profiles@.len() == 0 && res.total_concepts == 0
            && res.n_attributes == 0,
        observations@.len() >= 2 ==> ({
            let attrs = attributes_spec(obs_view(observations@), holes@, n_instances as nat);
            let cs = next_closure_concepts(
                rows_spec(attrs, obs_view(observations@), n_instances as nat),
                attrs.len(),
            );
            &&& res.n_attributes == attrs.len()
            &&& res.total_concepts == cs.len()
            &&& by_support(profiles_view(res.profiles@), candidates(cs, attrs, n_instances as nat, cs.len()))
        }),
        forall|i: int|
            0 <= i < res.profiles@.len() ==> profile_holds(
                #[trigger] profiles_view(res.profiles@)[i],
                obs_view(observations@),
                n_instances as nat,
            ),
{
    if observations.len() < 2 {
        return FcaResult { profiles: Vec::new(), total_concepts: 0, n_attributes: 0 };
    }
    let ghost ov = obs_view(observations@);
    let ghost n = n_instances as nat;
    let (attributes, ctx) = build_context(observations, n_instances, holes);
    let ghost attrs = attributes_spec(ov, holes@, n);
    let ghost rows = rows_spec(attrs, ov, n);
    assert(rows_of(context_objects(ctx)) =~= rows);
    assert(context_attributes(ctx).len() == attrs.len());
    let concepts = context_concepts(&ctx);
    let ghost cs = index_lists(concepts@);
    proof {
        assert forall|c: int, k: int|
            0 <= c < concepts@.len() && 0 <= k < concepts@[c].1@.len() implies #[trigger] concepts@[c].1@[k]
                < attributes@.len() by {
            let cc = index_lists(concepts@)[c];
            assert(cc.1[k] == concepts@[c].1@[k] as nat);
            assert(cc.1.to_set().contains(cc.1[k]));
            assert(intent_of(rows, attrs.len(), cc.0.to_set()).contains(cc.1[k]));
        }
    }
    let total_concepts = concepts.len();
    let n_attributes = attributes.len();
    let profiles = interpret_concepts(&concepts, &attributes, n_instances);
    proof {
        let kept = candidates(cs, attrs, n, cs.len());
        let pv = profiles_view(profiles@);
        let p = choose|p: Seq<nat>| #[trigger] ordered_as(pv, kept, p);
        assert forall|i: int| 0 <= i < pv.len() implies profile_holds(#[trigger] pv[i], ov, n) by {
            let j = p[i] as int;
            assert(crate::order::is_permutation(p, supports_of(kept).len()));
            assert(p[i] < kept.len());
            lemma_candidate_source(cs, attrs, n, cs.len(), j);
            let c = choose|c: int| 0 <= c < cs.len() && #[trigger] candidate(cs[c], attrs, n) == Some(kept[j]);
            assert(is_concept(rows, attrs.len(), cs[c].0.to_set(), cs[c].1.to_set()));
            lemma_concept_profile(cs[c], attrs, ov, n);
        }
    }
    FcaResult { profiles, total_concepts, n_attributes }
}


/// Every observed value can be labelled.
pub open spec fn observed_labels_fit(obs: Seq<ObsV>) -> bool {
    forall|h: int, k: int| 0 <= h < obs.len() && 0 <= k < obs[h].1.len() ==> short_fits(json_text(#[trigger] obs[h].1[k]))
}

proof fn lemma_text_insert_values(acc: Seq<(Seq<char>, JVal)>, v: JVal, i: int)
    requires
        0 <= i < text_insert(acc, v).len(),
    ensures
        text_insert(acc, v)[i].1 == v || exists|j: int| 0 <= j < acc.len() && acc[j].1 == text_insert(acc, v)[i].1,
    decreases acc.len(),
{
    let t = json_text(v);
    if acc.len() == 0 {
    } else if acc[0].0 == t {
        assert(acc[i].1 == text_insert(acc, v)[i].1);
    } else if chars_lt(t, acc[0].0) {
        if i > 0 {
            assert(acc[i - 1].1 == text_insert(acc, v)[i].1);
        }
    } else if i > 0 {
        lemma_text_insert_values(acc.drop_first(), v, i - 1);
        if text_insert(acc, v)[i].1 != v {
            let j = choose|j: int| 0 <= j < acc.drop_first().len() && acc.drop_first()[j].1 == text_insert(acc.drop_first(), v)[i - 1].1;
            assert(acc[j + 1].1 == text_insert(acc, v)[i].1);
        }
    } else {
        assert(acc[0].1 == text_insert(acc, v)[i].1);
    }
}

/// The values a text index lists are among the values indexed.
proof fn lemma_text_index_values(values: Seq<JVal>, i: int)
    requires
        0 <= i < text_index(values).len(),
    ensures
        exists|k: int| 0 <= k < values.len() && values[k] == text_index(values)[i].1,
    decreases values.len(),
{
    let prev = text_index(values.drop_last());
    lemma_text_insert_values(prev, values.last(), i);
    if text_index(values)[i].1 == values.last() {
        assert(values[values.len() - 1] == text_index(values)[i].1);
    } else {
        let j = choose|j: int| 0 <= j < prev.len() && prev[j].1 == text_index(values)[i].1;
        lemma_text_index_values(values.drop_last(), j);
        let k = choose|k: int| 0 <= k < values.drop_last().len() && values.drop_last()[k] == prev[j].1;
        assert(values[k] == text_index(values)[i].1);
    }
}

proof fn lemma_value_attrs_fit(obs: Seq<ObsV>, holes: Seq<HoleReport>, h: nat)
    requires
        observed_labels_fit(obs),
        h <= zip_len(obs, holes),
    ensures
        labels_fit(value_attrs(obs, holes, h)),
    decreases h,
{
    if h > 0 {
        lemma_value_attrs_fit(obs, holes, (h - 1) as nat);
        let prev = value_attrs(obs, holes, (h - 1) as nat);
        let ti = text_index(obs[h - 1].1);
        let block = ti.map_values(|e: (Seq<char>, JVal)| ((h - 1) as nat, holes[h - 1].address@, Some(e.1)));
        let all = value_attrs(obs, holes, h);
        assert forall|a: int| 0 <= a < all.len() implies ((#[trigger] all[a]).2 matches Some(v) ==> short_fits(json_text(v))) by {
            if a < prev.len() {
                assert(all[a] == prev[a]);
            } else {
                let i = a - prev.len();
                assert(all[a] == block[i]);
                lemma_text_index_values(obs[h - 1].1, i);
                let vals = obs[h - 1].1;
                let k = choose|k: int| 0 <= k < vals.len() && #[trigger] vals[k] == ti[i].1;
                assert(short_fits(json_text(obs[h - 1].1[k])));
            }
        }
    }
}

proof fn lemma_absent_attrs_fit(holes: Seq<HoleReport>, opt: Seq<nat>, keep: Seq<bool>, k: nat)
    ensures
        labels_fit(absent_attrs(holes, opt, keep, k)),
    decreases k,
{
    if k > 0 && k <= opt.len() {
        lemma_absent_attrs_fit(holes, opt, keep, (k - 1) as nat);
        let prev = absent_attrs(holes, opt, keep, (k - 1) as nat);
        let all = absent_attrs(holes, opt, keep, k);
        assert forall|a: int| 0 <= a < all.len() implies ((#[trigger] all[a]).2 matches Some(v) ==> short_fits(json_text(v))) by {
            if a < prev.len() {
                assert(all[a] == prev[a]);
            }
        }
    }
}

/// When every observed value can be labelled, so can every attribute.
pub proof fn lemma_labels_fit(obs: Seq<ObsV>, holes: Seq<HoleReport>, n: nat)
    requires
        observed_labels_fit(obs),
    ensures
        labels_fit(attributes_spec(obs, holes, n)),
{
    let opt = optional_holes(holes, zip_len(obs, holes));
    let keep = prune(opt_addrs(holes, opt), opt_absent(obs, opt, n), opt.len());
    let va = value_attrs(obs, holes, zip_len(obs, holes));
    let aa = absent_attrs(holes, opt, keep, opt.len());
    lemma_value_attrs_fit(obs, holes, zip_len(obs, holes));
    lemma_absent_attrs_fit(holes, opt, keep, opt.len());
    let all = va + aa;
    assert forall|a: int| 0 <= a < all.len() implies ((#[trigger] all[a]).2 matches Some(v) ==> short_fits(json_text(v))) by {
        if a < va.len() {
            assert(all[a] == va[a]);
        } else {
            assert(all[a] == aa[a - va.len()]);
        }
    }
}

// ---------------------------------------------------------------------------
// Profiles relevant to match predicates
// ---------------------------------------------------------------------------

pub open spec fn preds_view(v: Seq<MatchPredicate>) -> Seq<PredV> {
    v.map_values(|p: MatchPredicate| p@)
}

/// Some predicate matches somewhere in the value.
pub open spec fn value_matches(v: JVal, preds: Seq<PredV>) -> bool {
    exists|i: int| 0 <= i < preds.len() && (#[trigger] match_addresses(v, preds[i])).len() > 0
}

/// The binding has a value that some predicate matches.
pub open spec fn binding_relevant(b: AttrV, preds: Seq<PredV>) -> bool {
    match b.2 {
        Some(v) => value_matches(v, preds),
        None => false,
    }
}

/// Some binding of the profile has a value that some predicate matches.
pub open spec fn profile_relevant(p: ProfileV, preds: Seq<PredV>) -> bool {
    exists|k: int| 0 <= k < p.1.len() && binding_relevant(#[trigger] p.1[k], preds)
}

/// The first `n` profiles that are relevant, in order.
pub open spec fn relevant_profiles(ps: Seq<ProfileV>, preds: Seq<PredV>, n: nat) -> Seq<ProfileV>
    decreases n,
{
    if n == 0 || n > ps.len() {
        Seq::empty()
    } else {
        let prev = relevant_profiles(ps, preds, (n - 1) as nat);
        if profile_relevant(ps[n - 1], preds) {
            prev.push(ps[n - 1])
        } else {
            prev
        }
    }
}

fn value_matches_exec(v: &Json, preds: &Vec<MatchPredicate>) -> (res: bool)
    ensures
        res == value_matches(v@, preds_view(preds@)),
{
    let ghost pv = preds_view(preds@);
    let mut i: usize = 0;
    while i < preds.len()
        invariant
            i <= preds@.len(),
            pv == preds_view(preds@),
            forall|q: int| 0 <= q < i ==> (#[trigger] match_addresses(v@, pv[q])).len() == 0,
        decreases preds@.len() - i,
    {
        let hits = find_match_addresses(v, &preds[i]);
        assert(pv[i as int] == preds@[i as int]@);
        assert(strings_view(hits@).len() == hits@.len());
        if hits.len() > 0 {
            return true;
        }
        i = i + 1;
    }
    false
}

/// The profiles, in order, in which some binding's value is matched by
/// some predicate somewhere in it; bindings for an absent key match
/// nothing.
pub fn filter_profiles_by_predicates(profiles: &Vec<Profile>, preds: &Vec<MatchPredicate>) -> (res: Vec<Profile>)
    ensures
        profiles_view(res@) == relevant_profiles(profiles_view(profiles@), preds_view(preds@), profiles@.len() as nat),
{
    let ghost pv = preds_view(preds@);
    let ghost ps = profiles_view(profiles@);
    let mut out: Vec<Profile> = Vec::new();
    let mut n: usize = 0;
    while n < profiles.len()
        invariant
            n <= profiles@.len(),
            pv == preds_view(preds@),
            ps == profiles_view(profiles@),
            profiles_view(out@) == relevant_profiles(ps, pv, n as nat),
        decreases profiles@.len() - n,
    {
        let p = &profiles[n];
        assert(ps[n as int] == p@);
        let mut found = false;
        let mut k: usize = 0;
        while k < p.bindings.len()
            invariant
                k <= p.bindings@.len(),
                pv == preds_view(preds@),
                found == exists|q: int| 0 <= q < k && binding_relevant(#[trigger] p@.1[q], pv),
            decreases p.bindings@.len() - k,
        {
            assert(p@.1[k as int] == p.bindings@[k as int]@);
            match &p.bindings[k].value {
                Some(v) => {
                    if value_matches_exec(v, preds) {
                        found = true;
                    }
                },
                None => {},
            }
            k = k + 1;
        }
        assert(found == profile_relevant(p@, pv));
        if found {
            let ghost o0 = profiles_view(out@);
            out.push(clone_profile(p));
            assert(profiles_view(out@) =~= o0.push(p@));
        }
        n = n + 1;
    }
    out
}

} // verus!
