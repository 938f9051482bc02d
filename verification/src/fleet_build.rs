//! Anti-unification over tracked config files.
//!
//! Files are grouped by the glob pattern that matched them; each group is
//! anti-unified into a template with holes, and the report gives the
//! observed value distributions per hole and the configuration profiles
//! the holes form. With co-occurrence on, instances are the subtrees at
//! co-occurrence sites rather than whole files.

use vstd::prelude::*;

use crate::address::strings_view;
use crate::antiunify::{ObsV, Observations, anti_unify, anti_unify_spec, obs_view, obs_wf, TmplV};
use crate::fca::{
    FcaResult, short_fits, attributes_spec, by_support, candidates, lemma_labels_fit, next_closure_concepts,
    observed_labels_fit, profile_holds, profiles_view, rows_spec, analyse,
};
use crate::json::{JVal, Json, group_json_view, json_clone, json_text, render_compact, view_list};
use crate::order::{chars_seqs, nat_seq, stable_by_text, stable_order_by_text};
use crate::report::{
    HoleReport, address_for, address_of, classify_spec, collect_addresses, hole_addrs, id_addrs_view,
    is_tally, render, render_template, source_spec, strs, summarise_hole, tally_of,
};
use crate::address::{find_addresses, match_sites, object_ancestors, object_ancestors_spec, subtree_at, subtree_at_spec};
use crate::match_pred::{MatchPredicate, PredV, find_match_addresses, match_addresses, scope_applies};
use crate::term::{Term, TermV};
use crate::text::{chars_eq, chars_lt, chars_of, compare_chars_exec, has_prefix, lemma_compare_chars_props, lemma_compare_chars_trans, starts_with, string_of};

verus! {

broadcast use group_json_view;

/// One instance to anti-unify: a whole file, or the subtree at a
/// co-occurrence site within it.
#[derive(Debug)]
pub struct FileInstance {
    pub owner: String,
    pub repo: String,
    pub path: String,
    /// `None` means "the whole file"; `Some(addr)` means this instance is
    /// the subtree rooted at `addr` within the file.
    pub site_address: Option<String>,
    pub value: Json,
}

/// Where an instance came from.
#[derive(Debug, Clone)]
pub struct InstanceRef {
    pub owner: String,
    pub repo: String,
    pub path: String,
    pub site_address: Option<String>,
}

/// The report for one group of instances.
#[derive(Debug)]
pub struct GroupReport {
    pub pattern: String,
    pub instance_count: usize,
    pub instances: Vec<InstanceRef>,
    pub template_text: String,
    pub holes: Vec<HoleReport>,
    pub fca: FcaResult,
}

/// The whole build report.
#[derive(Debug)]
pub struct BuildReport {
    pub groups: Vec<GroupReport>,
    pub skipped: Vec<(String, usize, String)>,
}

pub open spec fn values_of(v: Seq<FileInstance>) -> Seq<JVal> {
    v.map_values(|i: FileInstance| i.value@)
}

pub open spec fn repos_of(v: Seq<FileInstance>) -> Seq<Seq<char>> {
    v.map_values(|i: FileInstance| i.repo@)
}

/// `h` summarises hole observations `o` found at `address`.
pub open spec fn summarises(h: HoleReport, o: ObsV, address: Seq<char>, total: nat, repos: Seq<Seq<char>>) -> bool {
    &&& h.address@ == address
    &&& h.present_in == o.1.len()
    &&& h.total == total
    &&& is_tally(tally_of(h), o.1)
    &&& h.kind == classify_spec(o.1, o.1.len(), total)
    &&& h.source_hint == source_spec(o.0, o.1, repos)
}

/// `holes` summarises every hole of `obs`, ordered by address (ties by
/// hole id) through the permutation `p`.
pub open spec fn holes_by_address(
    holes: Seq<HoleReport>,
    obs: Seq<ObsV>,
    addrs: Seq<(nat, Seq<char>)>,
    total: nat,
    repos: Seq<Seq<char>>,
    p: Seq<nat>,
) -> bool {
    &&& stable_by_text(Seq::new(obs.len(), |id: int| address_of(addrs, id as nat)), p)
    &&& holes.len() == obs.len()
    &&& forall|i: int|
        0 <= i < holes.len() ==> summarises(
            #[trigger] holes[i],
            obs[p[i] as int],
            address_of(addrs, p[i]),
            total,
            repos,
        )
}

/// What concept analysis yields for these observations and hole
/// summaries.
pub open spec fn analysis_of(obs: Seq<ObsV>, n: nat, holes: Seq<HoleReport>, r: FcaResult) -> bool {
    &&& obs.len() < 2 ==> r.profiles@.len() == 0 && r.total_concepts == 0 && r.n_attributes == 0
    &&& obs.len() >= 2 ==> ({
        let attrs = attributes_spec(obs, holes, n);
        let cs = next_closure_concepts(rows_spec(attrs, obs, n), attrs.len());
        &&& r.n_attributes == attrs.len()
        &&& r.total_concepts == cs.len()
        &&& by_support(profiles_view(r.profiles@), candidates(cs, attrs, n, cs.len()))
    })
    &&& forall|i: int|
        0 <= i < r.profiles@.len() ==> profile_holds(#[trigger] profiles_view(r.profiles@)[i], obs, n)
}

/// Anti-unify one group of instances and report on it.
/// `g` reports on the group of `instances` found under `pattern`.
pub open spec fn reports_group(g: GroupReport, pattern: Seq<char>, instances: Seq<FileInstance>) -> bool {
    &&& g.pattern@ == pattern
    &&& g.instance_count == instances.len()
    &&& g.instances@.len() == instances.len()
    &&& forall|i: int|
        0 <= i < instances.len() ==> (#[trigger] g.instances@[i]).owner == instances[i].owner
            && g.instances@[i].repo == instances[i].repo && g.instances@[i].path == instances[i].path
            && g.instances@[i].site_address == instances[i].site_address
    &&& g.template_text@ == render(anti_unify_spec(values_of(instances)).0, 0)
    &&& exists|p: Seq<nat>|
        #[trigger] holes_by_address(
            g.holes@,
            anti_unify_spec(values_of(instances)).1,
            hole_addrs(anti_unify_spec(values_of(instances)).0, Seq::empty()),
            instances.len() as nat,
            repos_of(instances),
            p,
        )
    &&& analysis_of(anti_unify_spec(values_of(instances)).1, instances.len() as nat, g.holes@, g.fca)
}

/// Anti-unify one group of instances and report on it.
pub fn build_group(pattern: &str, instances: &Vec<FileInstance>) -> (res: GroupReport)
    requires
        instances@.len() > 0,
        observed_labels_fit(anti_unify_spec(values_of(instances@)).1),
    ensures
        reports_group(res, pattern@, instances@),
{
    let ghost iv = instances@;
    let mut values: Vec<Json> = Vec::new();
    let mut repo_names: Vec<String> = Vec::new();
    let mut refs: Vec<InstanceRef> = Vec::new();
    let mut i: usize = 0;
    while i < instances.len()
        invariant
            i <= instances@.len(),
            values@.len() == i,
            repo_names@.len() == i,
            refs@.len() == i,
            forall|k: int| 0 <= k < i ==> (#[trigger] values@[k])@ == instances@[k].value@,
            forall|k: int| 0 <= k < i ==> (#[trigger] repo_names@[k]) == instances@[k].repo,
            forall|k: int|
                0 <= k < i ==> (#[trigger] refs@[k]).owner == instances@[k].owner && refs@[k].repo
                    == instances@[k].repo && refs@[k].path == instances@[k].path
                    && refs@[k].site_address == instances@[k].site_address,
        decreases instances@.len() - i,
    {
        let inst = &instances[i];
        values.push(json_clone(&inst.value));
        repo_names.push(inst.repo.clone());
        let site = match &inst.site_address {
            Some(s) => Some(s.clone()),
            None => None,
        };
        refs.push(InstanceRef { owner: inst.owner.clone(), repo: inst.repo.clone(), path: inst.path.clone(), site_address: site });
        i = i + 1;
    }
    assert(view_list(values@) =~= values_of(iv));
    assert(strs(repo_names@) =~= repos_of(iv));
    let (template, observations) = anti_unify(&values);
    let ghost ov = obs_view(observations@);
    let ghost tv = template@;
    let addrs = collect_addresses(&template);
    let ghost av = id_addrs_view(addrs@);
    let total = instances.len();
    // addresses by hole id
    let mut names: Vec<String> = Vec::new();
    let mut keys: Vec<Vec<char>> = Vec::new();
    let mut id: usize = 0;
    while id < observations.len()
        invariant
            id <= observations@.len(),
            av == id_addrs_view(addrs@),
            names@.len() == id,
            keys@.len() == id,
            forall|k: int| 0 <= k < id ==> (#[trigger] names@[k])@ == address_of(av, k as nat),
            forall|k: int| 0 <= k < id ==> (#[trigger] keys@[k])@ == address_of(av, k as nat),
        decreases observations@.len() - id,
    {
        let name = address_for(&addrs, id);
        keys.push(chars_of(name.as_str()));
        names.push(name);
        id = id + 1;
    }
    let ghost key_seq = Seq::new(ov.len(), |k: int| address_of(av, k as nat));
    assert(chars_seqs(keys@) =~= key_seq);
    let order = stable_order_by_text(&keys);
    let ghost p = nat_seq(order@);
    let mut holes: Vec<HoleReport> = Vec::new();
    let mut q: usize = 0;
    while q < order.len()
        invariant
            q <= order@.len(),
            stable_by_text(key_seq, p),
            p == nat_seq(order@),
            order@.len() == observations@.len(),
            names@.len() == observations@.len(),
            ov == obs_view(observations@),
            obs_wf(ov, total as nat),
            total == instances@.len(),
            repo_names@.len() == total,
            strs(repo_names@) == repos_of(iv),
            forall|k: int| 0 <= k < names@.len() ==> (#[trigger] names@[k])@ == address_of(av, k as nat),
            holes@.len() == q,
            forall|k: int|
                0 <= k < q ==> summarises(
                    #[trigger] holes@[k],
                    ov[p[k] as int],
                    address_of(av, p[k]),
                    total as nat,
                    repos_of(iv),
                ),
        decreases order@.len() - q,
    {
        let hid = order[q];
        assert(p[q as int] == hid as nat);
        assert(hid < observations@.len());
        assert(ov[hid as int] == observations@[hid as int]@);
        proof {
            assert forall|k: int|
                0 <= k < observations@[hid as int].instance_indices@.len() implies #[trigger] observations@[hid as int].instance_indices@[k]
                    < repo_names@.len() by {
                assert(ov[hid as int].0[k] == observations@[hid as int].instance_indices@[k] as nat);
            }
        }
        let h = summarise_hole(names[hid].clone(), &observations[hid], total, &repo_names);
        holes.push(h);
        q = q + 1;
    }
    assert(holes_by_address(holes@, ov, av, total as nat, repos_of(iv), p));
    assert(ov == anti_unify_spec(values_of(iv)).1);
    assert(av == hole_addrs(anti_unify_spec(values_of(iv)).0, Seq::empty()));
    assert(holes_by_address(
        holes@,
        anti_unify_spec(values_of(iv)).1,
        hole_addrs(anti_unify_spec(values_of(iv)).0, Seq::empty()),
        total as nat,
        repos_of(iv),
        p,
    ));
    proof {
        if observations@.len() >= 2 {
            lemma_labels_fit(ov, holes@, total as nat);
        }
    }
    let fca = analyse(&observations, total, &holes);
    let template_text = render_template(&template, 0);
    let res = GroupReport {
        pattern: pattern.to_owned(),
        instance_count: total,
        instances: refs,
        template_text,
        holes,
        fca,
    };
    assert(holes_by_address(
        res.holes@,
        anti_unify_spec(values_of(iv)).1,
        hole_addrs(anti_unify_spec(values_of(iv)).0, Seq::empty()),
        total as nat,
        repos_of(iv),
        p,
    ));
    res
}


/// Whether a value's compact text can be cut short for a profile label
/// without splitting a character.
pub fn value_fits_label(v: &Json) -> (res: bool)
    ensures
        res == short_fits(json_text(v@)),
{
    let text = string_of(&render_compact(v));
    let s = text.as_str();
    s.as_bytes().len() <= 40 || s.is_char_boundary(37)
}

/// Whether every value observed at a hole of these instances can be
/// labelled.
pub fn labels_fit_for(instances: &Vec<FileInstance>) -> (res: bool)
    requires
        instances@.len() > 0,
    ensures
        res == observed_labels_fit(anti_unify_spec(values_of(instances@)).1),
{
    let mut values: Vec<Json> = Vec::new();
    let mut i: usize = 0;
    while i < instances.len()
        invariant
            i <= instances@.len(),
            values@.len() == i,
            forall|k: int| 0 <= k < i ==> (#[trigger] values@[k])@ == instances@[k].value@,
        decreases instances@.len() - i,
    {
        values.push(json_clone(&instances[i].value));
        i = i + 1;
    }
    assert(view_list(values@) =~= values_of(instances@));
    let (_template, observations) = anti_unify(&values);
    let ghost ov = obs_view(observations@);
    assert(ov == anti_unify_spec(values_of(instances@)).1);
    let mut h: usize = 0;
    while h < observations.len()
        invariant
            h <= observations@.len(),
            ov == obs_view(observations@),
            ov == anti_unify_spec(values_of(instances@)).1,
            forall|a: int, k: int| 0 <= a < h && 0 <= k < ov[a].1.len() ==> short_fits(json_text(#[trigger] ov[a].1[k])),
        decreases observations@.len() - h,
    {
        let vals = &observations[h].values;
        assert(ov[h as int] == observations@[h as int]@);
        let mut k: usize = 0;
        while k < vals.len()
            invariant
                k <= vals@.len(),
                ov == obs_view(observations@),
                ov == anti_unify_spec(values_of(instances@)).1,
                h < observations@.len(),
                ov[h as int] == observations@[h as int]@,
                vals == &observations@[h as int].values,
                forall|a: int, j: int| 0 <= a < h && 0 <= j < ov[a].1.len() ==> short_fits(json_text(#[trigger] ov[a].1[j])),
                forall|j: int| 0 <= j < k ==> short_fits(json_text(#[trigger] ov[h as int].1[j])),
            decreases vals@.len() - k,
        {
            if !value_fits_label(&vals[k]) {
                assert(ov[h as int].1 == view_list(vals@));
                assert(ov[h as int].1[k as int] == vals@[k as int]@);
                assert(!short_fits(json_text(ov[h as int].1[k as int])));
                return false;
            }
            k = k + 1;
        }
        h = h + 1;
    }
    true
}

/// The report over groups of instances keyed by pattern, one group report
/// each, in the order given. A group holding a value whose label cannot
/// be cut at a character boundary is refused: the first such group's
/// pattern comes back as the error.
pub fn build_report(groups: &Vec<(String, Vec<FileInstance>)>) -> (res: Result<BuildReport, String>)
    requires
        forall|g: int| 0 <= g < groups@.len() ==> (#[trigger] groups@[g]).1@.len() > 0,
    ensures
        res is Ok <==> forall|g: int|
            0 <= g < groups@.len() ==> observed_labels_fit(
                anti_unify_spec(values_of((#[trigger] groups@[g]).1@)).1,
            ),
        res matches Ok(r) ==> r.skipped@.len() == 0 && r.groups@.len() == groups@.len() && forall|g: int|
            0 <= g < groups@.len() ==> reports_group(#[trigger] r.groups@[g], groups@[g].0@, groups@[g].1@),
        res matches Err(p) ==> exists|g: int|
            0 <= g < groups@.len() && p@ == (#[trigger] groups@[g]).0@ && !observed_labels_fit(
                anti_unify_spec(values_of(groups@[g].1@)).1,
            ),
{
    let mut out: Vec<GroupReport> = Vec::new();
    let mut g: usize = 0;
    while g < groups.len()
        invariant
            g <= groups@.len(),
            out@.len() == g,
            forall|x: int| 0 <= x < groups@.len() ==> (#[trigger] groups@[x]).1@.len() > 0,
            forall|x: int| 0 <= x < g ==> observed_labels_fit(anti_unify_spec(values_of((#[trigger] groups@[x]).1@)).1),
            forall|x: int| 0 <= x < g ==> reports_group(#[trigger] out@[x], groups@[x].0@, groups@[x].1@),
        decreases groups@.len() - g,
    {
        let (pattern, instances) = (&groups[g].0, &groups[g].1);
        if !labels_fit_for(instances) {
            return Err(pattern.clone());
        }
        out.push(build_group(pattern.as_str(), instances));
        g = g + 1;
    }
    Ok(BuildReport { groups: out, skipped: Vec::new() })
}

// ---------------------------------------------------------------------------
// Choosing the instances of one file
// ---------------------------------------------------------------------------

/// What to build.
#[derive(Debug, Default)]
pub struct BuildOptions {
    /// Only include files satisfying every term. Empty = include all.
    pub where_terms: Vec<Term>,
    /// Structural predicates; compose with the terms and with
    /// co-occurrence.
    pub match_preds: Vec<MatchPredicate>,
    /// Anti-unify subtrees at co-occurrence sites rather than whole files:
    /// a site is a deepest non-root object ancestor within which every
    /// constraint has at least one hit.
    pub co_occur: bool,
}

pub open spec fn terms_v(ts: Seq<Term>) -> Seq<TermV> {
    ts.map_values(|t: Term| t@)
}

pub open spec fn preds_v(ps: Seq<MatchPredicate>) -> Seq<PredV> {
    ps.map_values(|p: MatchPredicate| p@)
}

/// Every term and predicate is in scope for the pattern.
pub open spec fn all_in_scope(terms: Seq<TermV>, preds: Seq<PredV>, pattern: Seq<char>) -> bool {
    &&& forall|i: int| 0 <= i < terms.len() ==> scope_applies((#[trigger] terms[i]).scope, pattern)
    &&& forall|i: int| 0 <= i < preds.len() ==> scope_applies((#[trigger] preds[i]).scope, pattern)
}

pub open spec fn site_addrs(s: Seq<(Seq<char>, crate::address::MatchV)>) -> Seq<Seq<char>> {
    s.map_values(|x: (Seq<char>, crate::address::MatchV)| x.0)
}

/// The hits of the first `k` needles, in order.
pub open spec fn needle_hits(tree: JVal, needles: Seq<Seq<char>>, k: nat) -> Seq<Seq<char>>
    decreases k,
{
    if k == 0 || k > needles.len() {
        Seq::empty()
    } else {
        needle_hits(tree, needles, (k - 1) as nat) + site_addrs(match_sites(tree, Seq::empty(), needles[k - 1]))
    }
}

/// The addresses where any needle of a term occurs.
pub open spec fn term_hits(tree: JVal, t: TermV) -> Seq<Seq<char>> {
    needle_hits(tree, t.needles, t.needles.len())
}

/// Per constraint, its hits: the terms' first, then the predicates'.
pub open spec fn constraint_hits(tree: JVal, terms: Seq<TermV>, preds: Seq<PredV>) -> Seq<Seq<Seq<char>>> {
    terms.map_values(|t: TermV| term_hits(tree, t)) + preds.map_values(|p: PredV| match_addresses(tree, p))
}

/// `addr` lies within (or at) the subtree rooted at `root`.
pub open spec fn within(root: Seq<char>, addr: Seq<char>) -> bool {
    root.len() == 0 || addr == root || starts_with(addr, root + seq!['.']) || starts_with(addr, root + seq!['['])
}

pub fn is_within(root_addr: &str, addr: &str) -> (res: bool)
    ensures
        res == within(root_addr@, addr@),
{
    let r = chars_of(root_addr);
    let a = chars_of(addr);
    if r.len() == 0 {
        return true;
    }
    if chars_eq(&a, &r) {
        return true;
    }
    let mut dot = crate::text::slice(&r, 0, r.len());
    dot.push('.');
    let mut brk = crate::text::slice(&r, 0, r.len());
    brk.push('[');
    assert(r@.subrange(0, r@.len() as int) =~= r@);
    assert(dot@ =~= r@ + seq!['.']);
    assert(brk@ =~= r@ + seq!['[']);
    has_prefix(&a, &dot) || has_prefix(&a, &brk)
}

/// All hits of all constraints, one after another.
pub open spec fn flat(lists: Seq<Seq<Seq<char>>>, n: nat) -> Seq<Seq<char>>
    decreases n,
{
    if n == 0 || n > lists.len() {
        Seq::empty()
    } else {
        flat(lists, (n - 1) as nat) + lists[n - 1]
    }
}

/// A candidate site: a non-root object ancestor of some hit.
pub open spec fn is_candidate(tree: JVal, hits: Seq<Seq<char>>, x: Seq<char>) -> bool {
    x.len() > 0 && exists|k: int| 0 <= k < hits.len() && #[trigger] object_ancestors_spec(tree, hits[k]).contains(x)
}

pub open spec fn strictly_sorted(s: Seq<Seq<char>>) -> bool {
    forall|i: int, j: int| 0 <= i < j < s.len() ==> chars_lt(#[trigger] s[i], #[trigger] s[j])
}

/// Every constraint has a hit within `x`.
pub open spec fn qualifies(lists: Seq<Seq<Seq<char>>>, x: Seq<char>) -> bool {
    forall|ci: int| 0 <= ci < lists.len() ==> #[trigger] has_hit_within(lists[ci], x)
}

/// Some hit of the list lies within `x`.
pub open spec fn has_hit_within(hits: Seq<Seq<char>>, x: Seq<char>) -> bool {
    exists|j: int| 0 <= j < hits.len() && #[trigger] within(x, hits[j])
}

/// The qualifying candidates among the first `n`.
pub open spec fn qualifying(cands: Seq<Seq<char>>, lists: Seq<Seq<Seq<char>>>, n: nat) -> Seq<Seq<char>>
    decreases n,
{
    if n == 0 || n > cands.len() {
        Seq::empty()
    } else {
        qualifying(cands, lists, (n - 1) as nat) + if qualifies(lists, cands[n - 1]) {
            seq![cands[n - 1]]
        } else {
            Seq::empty()
        }
    }
}

/// `x` strictly contains another member of `qs`.
pub open spec fn contains_other(qs: Seq<Seq<char>>, x: Seq<char>) -> bool {
    exists|j: int| 0 <= j < qs.len() && qs[j] != x && #[trigger] within(x, qs[j])
}

/// The deepest of the first `n` qualifying candidates: those containing no
/// other one.
pub open spec fn deepest(qs: Seq<Seq<char>>, n: nat) -> Seq<Seq<char>>
    decreases n,
{
    if n == 0 || n > qs.len() {
        Seq::empty()
    } else {
        deepest(qs, (n - 1) as nat) + if contains_other(qs, qs[n - 1]) {
            Seq::empty()
        } else {
            seq![qs[n - 1]]
        }
    }
}

proof fn lemma_deepest_members(qs: Seq<Seq<char>>, n: nat)
    ensures
        forall|x: Seq<char>| #[trigger] deepest(qs, n).contains(x) ==> qs.contains(x) && !contains_other(qs, x),
    decreases n,
{
    if n > 0 && n <= qs.len() {
        lemma_deepest_members(qs, (n - 1) as nat);
        let prev = deepest(qs, (n - 1) as nat);
        let tail = if contains_other(qs, qs[n - 1]) { Seq::<Seq<char>>::empty() } else { seq![qs[n - 1]] };
        assert forall|x: Seq<char>| #[trigger] deepest(qs, n).contains(x) implies qs.contains(x) && !contains_other(qs, x) by {
            let d = deepest(qs, n);
            assert(d == prev + tail);
            let k = choose|k: int| 0 <= k < d.len() && d[k] == x;
            if k < prev.len() {
                assert(prev[k] == x);
                assert(prev.contains(x));
            } else {
                assert(tail[k - prev.len()] == x);
                assert(qs[n - 1] == x);
            }
        }
    }
}

/// Only the deepest sites are kept: no site returned lies within another
/// returned site.
pub proof fn lemma_sites_deepest(cands: Seq<Seq<char>>, lists: Seq<Seq<Seq<char>>>)
    ensures
        forall|x: Seq<char>, y: Seq<char>|
            #[trigger] sites_of(cands, lists).contains(x) && #[trigger] sites_of(cands, lists).contains(y) && x != y
                ==> !within(x, y),
{
    let qs = qualifying(cands, lists, cands.len());
    lemma_deepest_members(qs, qs.len());
    assert forall|x: Seq<char>, y: Seq<char>|
        #[trigger] sites_of(cands, lists).contains(x) && #[trigger] sites_of(cands, lists).contains(y) && x != y
            implies !within(x, y) by {
        if within(x, y) {
            assert(qs.contains(y));
            let j = choose|j: int| 0 <= j < qs.len() && qs[j] == y;
            assert(qs[j] != x && within(x, qs[j]));
            assert(contains_other(qs, x));
        }
    }
}

/// The co-occurrence sites of a tree under the given constraints (`cands`
/// being its candidate sites, sorted).
pub open spec fn sites_of(cands: Seq<Seq<char>>, lists: Seq<Seq<Seq<char>>>) -> Seq<Seq<char>> {
    let qs = qualifying(cands, lists, cands.len());
    deepest(qs, qs.len())
}

/// `cands` are the candidate sites, sorted.
pub open spec fn candidates_of(tree: JVal, lists: Seq<Seq<Seq<char>>>, cands: Seq<Seq<char>>) -> bool {
    &&& strictly_sorted(cands)
    &&& forall|x: Seq<char>| cands.contains(x) <==> is_candidate(tree, flat(lists, lists.len()), x)
}

fn insert_unique_sorted(v: &mut Vec<Vec<char>>, x: Vec<char>)
    requires
        strictly_sorted(chars_seqs(old(v)@)),
    ensures
        strictly_sorted(chars_seqs(final(v)@)),
        forall|y: Seq<char>| chars_seqs(final(v)@).contains(y) <==> chars_seqs(old(v)@).contains(y) || y == x@,
{
    let ghost s0 = chars_seqs(v@);
    let mut p: usize = 0;
    while p < v.len() && compare_chars_exec(&v[p], &x) < 0
        invariant
            p <= v@.len(),
            s0 == chars_seqs(v@),
            forall|i: int| 0 <= i < p ==> chars_lt(#[trigger] s0[i], x@),
        decreases v@.len() - p,
    {
        p = p + 1;
    }
    if p < v.len() && chars_eq(&v[p], &x) {
        assert(s0[p as int] == x@);
        return;
    }
    proof {
        if p < v@.len() {
            lemma_compare_chars_props(s0[p as int], x@);
        }
    }
    let ghost xv = x@;
    v.insert(p, x);
    let ghost s1 = chars_seqs(v@);
    assert(s1 =~= s0.insert(p as int, xv));
    assert forall|i: int, j: int| 0 <= i < j < s1.len() implies chars_lt(#[trigger] s1[i], #[trigger] s1[j]) by {
        if i < p && j == p {
        } else if i == p && j > p {
            assert(s1[j] == s0[j - 1]);
            if j - 1 > p {
                assert(chars_lt(s0[p as int], s0[j - 1]));
                lemma_compare_chars_trans(xv, s0[p as int], s0[j - 1]);
            }
        } else if i < p && j > p {
            assert(s1[i] == s0[i] && s1[j] == s0[j - 1]);
        } else if i < p {
            assert(s1[i] == s0[i] && s1[j] == s0[j]);
        } else {
            assert(s1[i] == s0[i - 1] && s1[j] == s0[j - 1]);
        }
    }
    assert forall|y: Seq<char>| s1.contains(y) <==> s0.contains(y) || y == xv by {
        if s1.contains(y) {
            let k = choose|k: int| 0 <= k < s1.len() && s1[k] == y;
            if k < p {
                assert(s0[k] == y);
            } else if k > p {
                assert(s0[k - 1] == y);
            }
        }
        if s0.contains(y) {
            let k = choose|k: int| 0 <= k < s0.len() && s0[k] == y;
            if k < p {
                assert(s1[k] == y);
            } else {
                assert(s1[k + 1] == y);
            }
        }
        if y == xv {
            assert(s1[p as int] == y);
        }
    }
}


pub open spec fn lists_view(v: Seq<Vec<String>>) -> Seq<Seq<Seq<char>>> {
    v.map_values(|l: Vec<String>| strings_view(l@))
}

fn term_hits_exec(tree: &Json, t: &Term) -> (res: Vec<String>)
    ensures
        strings_view(res@) == term_hits(tree@, t@),
{
    let mut out: Vec<String> = Vec::new();
    let mut k: usize = 0;
    while k < t.needles.len()
        invariant
            k <= t.needles@.len(),
            strings_view(out@) == needle_hits(tree@, t@.needles, k as nat),
        decreases t.needles@.len() - k,
    {
        let found = find_addresses(tree, t.needles[k].as_str());
        assert(t@.needles[k as int] == t.needles@[k as int]@);
        let ghost sites = match_sites(tree@, Seq::empty(), t@.needles[k as int]);
        assert(strings_view(found@) =~= site_addrs(sites));
        let ghost o1 = strings_view(out@);
        let mut j: usize = 0;
        while j < found.len()
            invariant
                j <= found@.len(),
                strings_view(out@) == o1 + strings_view(found@).take(j as int),
            decreases found@.len() - j,
        {
            let ghost before = strings_view(out@);
            out.push(found[j].clone());
            assert(strings_view(out@) =~= before.push(found@[j as int]@));
            assert(strings_view(found@).take(j + 1) =~= strings_view(found@).take(j as int).push(found@[j as int]@));
            j = j + 1;
        }
        assert(strings_view(found@).take(found@.len() as int) =~= strings_view(found@));
        k = k + 1;
    }
    out
}

/// The hits of every constraint: terms first, then predicates.
fn constraint_hits_exec(tree: &Json, options: &BuildOptions) -> (res: Vec<Vec<String>>)
    ensures
        lists_view(res@) == constraint_hits(tree@, terms_v(options.where_terms@), preds_v(options.match_preds@)),
{
    let ghost tv = terms_v(options.where_terms@);
    let ghost pv = preds_v(options.match_preds@);
    let mut out: Vec<Vec<String>> = Vec::new();
    let mut i: usize = 0;
    while i < options.where_terms.len()
        invariant
            i <= options.where_terms@.len(),
            tv == terms_v(options.where_terms@),
            lists_view(out@) == tv.take(i as int).map_values(|t: TermV| term_hits(tree@, t)),
        decreases options.where_terms@.len() - i,
    {
        let h = term_hits_exec(tree, &options.where_terms[i]);
        let ghost before = lists_view(out@);
        let ghost hv = strings_view(h@);
        out.push(h);
        assert(lists_view(out@) =~= before.push(hv));
        assert(tv[i as int] == options.where_terms@[i as int]@);
        assert(tv.take(i + 1).map_values(|t: TermV| term_hits(tree@, t)) =~= tv.take(i as int).map_values(|t: TermV| term_hits(tree@, t)).push(term_hits(tree@, tv[i as int])));
        i = i + 1;
    }
    assert(tv.take(tv.len() as int) =~= tv);
    let ghost head = lists_view(out@);
    let mut j: usize = 0;
    while j < options.match_preds.len()
        invariant
            j <= options.match_preds@.len(),
            pv == preds_v(options.match_preds@),
            lists_view(out@) == head + pv.take(j as int).map_values(|p: PredV| match_addresses(tree@, p)),
        decreases options.match_preds@.len() - j,
    {
        let h = find_match_addresses(tree, &options.match_preds[j]);
        let ghost before = lists_view(out@);
        let ghost hv = strings_view(h@);
        out.push(h);
        assert(lists_view(out@) =~= before.push(hv));
        assert(pv[j as int] == options.match_preds@[j as int]@);
        assert(pv.take(j + 1).map_values(|p: PredV| match_addresses(tree@, p)) =~= pv.take(j as int).map_values(|p: PredV| match_addresses(tree@, p)).push(match_addresses(tree@, pv[j as int])));
        j = j + 1;
    }
    assert(pv.take(pv.len() as int) =~= pv);
    out
}

fn flatten_hits(lists: &Vec<Vec<String>>) -> (res: Vec<String>)
    ensures
        strings_view(res@) == flat(lists_view(lists@), lists@.len() as nat),
{
    let ghost lv = lists_view(lists@);
    let mut out: Vec<String> = Vec::new();
    let mut i: usize = 0;
    while i < lists.len()
        invariant
            i <= lists@.len(),
            lv == lists_view(lists@),
            strings_view(out@) == flat(lv, i as nat),
        decreases lists@.len() - i,
    {
        let ghost o1 = strings_view(out@);
        let l = &lists[i];
        assert(lv[i as int] == strings_view(l@));
        let mut j: usize = 0;
        while j < l.len()
            invariant
                j <= l@.len(),
                strings_view(out@) == o1 + strings_view(l@).take(j as int),
            decreases l@.len() - j,
        {
            let ghost before = strings_view(out@);
            out.push(l[j].clone());
            assert(strings_view(out@) =~= before.push(l@[j as int]@));
            assert(strings_view(l@).take(j + 1) =~= strings_view(l@).take(j as int).push(l@[j as int]@));
            j = j + 1;
        }
        assert(strings_view(l@).take(l@.len() as int) =~= strings_view(l@));
        i = i + 1;
    }
    out
}

fn candidate_sites(tree: &Json, hits: &Vec<String>) -> (res: Vec<Vec<char>>)
    ensures
        strictly_sorted(chars_seqs(res@)),
        forall|x: Seq<char>| chars_seqs(res@).contains(x) <==> is_candidate(tree@, strings_view(hits@), x),
{
    let ghost hv = strings_view(hits@);
    let mut out: Vec<Vec<char>> = Vec::new();
    let mut k: usize = 0;
    while k < hits.len()
        invariant
            k <= hits@.len(),
            hv == strings_view(hits@),
            strictly_sorted(chars_seqs(out@)),
            forall|x: Seq<char>|
                chars_seqs(out@).contains(x) <==> (x.len() > 0 && exists|m: int|
                    0 <= m < k && #[trigger] object_ancestors_spec(tree@, hv[m]).contains(x)),
        decreases hits@.len() - k,
    {
        let ancs = object_ancestors(tree, hits[k].as_str());
        assert(hv[k as int] == hits@[k as int]@);
        let ghost av = strings_view(ancs@);
        let ghost o0 = chars_seqs(out@);
        let mut j: usize = 0;
        while j < ancs.len()
            invariant
                j <= ancs@.len(),
                av == strings_view(ancs@),
                k < hv.len(),
                av == object_ancestors_spec(tree@, hv[k as int]),
                strictly_sorted(chars_seqs(out@)),
                forall|x: Seq<char>|
                    chars_seqs(out@).contains(x) <==> o0.contains(x) || (x.len() > 0 && av.take(j as int).contains(x)),
            decreases ancs@.len() - j,
        {
            let a = chars_of(ancs[j].as_str());
            assert(av[j as int] == a@);
            let ghost s1 = chars_seqs(out@);
            if a.len() > 0 {
                insert_unique_sorted(&mut out, a);
            }
            let ghost t0 = av.take(j as int);
            let ghost t1 = av.take(j + 1);
            assert(t1 =~= t0.push(a@));
            assert forall|x: Seq<char>|
                chars_seqs(out@).contains(x) <==> o0.contains(x) || (x.len() > 0 && t1.contains(x)) by {
                assert(s1.contains(x) <==> o0.contains(x) || (x.len() > 0 && t0.contains(x)));
                if a.len() > 0 {
                    assert(chars_seqs(out@).contains(x) <==> s1.contains(x) || x == a@);
                } else {
                    assert(chars_seqs(out@) == s1);
                }
                if t1.contains(x) {
                    let m = choose|m: int| 0 <= m < t1.len() && #[trigger] t1[m] == x;
                    if m < j {
                        assert(t0[m] == x);
                    }
                }
                if t0.contains(x) {
                    let m = choose|m: int| 0 <= m < t0.len() && #[trigger] t0[m] == x;
                    assert(t1[m] == x);
                }
                if x == a@ {
                    assert(t1[j as int] == x);
                }
            }
            j = j + 1;
        }
        assert(av.take(ancs@.len() as int) =~= av);
        assert forall|x: Seq<char>|
            chars_seqs(out@).contains(x) <==> o0.contains(x) || (x.len() > 0 && av.contains(x)) by {
            assert(av.take(j as int) == av);
        }
        assert forall|x: Seq<char>|
            chars_seqs(out@).contains(x) <==> (x.len() > 0 && exists|m: int|
                0 <= m < k + 1 && #[trigger] object_ancestors_spec(tree@, hv[m]).contains(x)) by {
            assert(o0.contains(x) <==> (x.len() > 0 && exists|m: int|
                0 <= m < k && #[trigger] object_ancestors_spec(tree@, hv[m]).contains(x)));
            if x.len() > 0 && exists|m: int| 0 <= m < k + 1 && #[trigger] object_ancestors_spec(tree@, hv[m]).contains(x) {
                let m = choose|m: int| 0 <= m < k + 1 && #[trigger] object_ancestors_spec(tree@, hv[m]).contains(x);
                if m == k {
                    assert(av.contains(x));
                } else {
                    assert(o0.contains(x));
                }
            }
            if av.contains(x) && x.len() > 0 {
                assert(object_ancestors_spec(tree@, hv[k as int]).contains(x));
            }
        }
        k = k + 1;
    }
    out
}

fn has_hit_within_exec(hits: &Vec<String>, x: &str) -> (res: bool)
    ensures
        res == has_hit_within(strings_view(hits@), x@),
{
    let mut j: usize = 0;
    while j < hits.len()
        invariant
            j <= hits@.len(),
            forall|m: int| 0 <= m < j ==> !within(x@, #[trigger] strings_view(hits@)[m]),
        decreases hits@.len() - j,
    {
        if is_within(x, hits[j].as_str()) {
            assert(within(x@, strings_view(hits@)[j as int]));
            return true;
        }
        j = j + 1;
    }
    false
}

fn qualifies_exec(lists: &Vec<Vec<String>>, x: &str) -> (res: bool)
    ensures
        res == qualifies(lists_view(lists@), x@),
{
    let mut ci: usize = 0;
    while ci < lists.len()
        invariant
            ci <= lists@.len(),
            forall|m: int| 0 <= m < ci ==> #[trigger] has_hit_within(lists_view(lists@)[m], x@),
        decreases lists@.len() - ci,
    {
        assert(lists_view(lists@)[ci as int] == strings_view(lists@[ci as int]@));
        if !has_hit_within_exec(&lists[ci], x) {
            return false;
        }
        ci = ci + 1;
    }
    true
}

/// The co-occurrence sites for these per-constraint hits.
#[verifier::spinoff_prover]
#[verifier::rlimit(40)]
pub fn cooccurrence_sites(tree: &Json, lists: &Vec<Vec<String>>) -> (res: Vec<String>)
    ensures
        exists|cands: Seq<Seq<char>>|
            #[trigger] candidates_of(tree@, lists_view(lists@), cands) && strings_view(res@) == sites_of(
                cands,
                lists_view(lists@),
            ),
        forall|i: int, j: int|
            0 <= i < res@.len() && 0 <= j < res@.len() && #[trigger] res@[i]@ != #[trigger] res@[j]@ ==> !within(
                res@[i]@,
                res@[j]@,
            ),
{
    let ghost lv = lists_view(lists@);
    let hits = flatten_hits(lists);
    let cands = candidate_sites(tree, &hits);
    let ghost cv = chars_seqs(cands@);
    assert(candidates_of(tree@, lv, cv));
    let mut qs: Vec<String> = Vec::new();
    let mut i: usize = 0;
    while i < cands.len()
        invariant
            i <= cands@.len(),
            cv == chars_seqs(cands@),
            lv == lists_view(lists@),
            strings_view(qs@) == qualifying(cv, lv, i as nat),
        decreases cands@.len() - i,
    {
        let c = string_of(&cands[i]);
        assert(cv[i as int] == c@);
        let ghost q1 = strings_view(qs@);
        if qualifies_exec(lists, c.as_str()) {
            qs.push(c);
            assert(strings_view(qs@) =~= q1.push(cv[i as int]));
        }
        assert(strings_view(qs@) =~= qualifying(cv, lv, (i + 1) as nat));
        i = i + 1;
    }
    let ghost qv = strings_view(qs@);
    let mut out: Vec<String> = Vec::new();
    let mut i: usize = 0;
    while i < qs.len()
        invariant
            i <= qs@.len(),
            qv == strings_view(qs@),
            strings_view(out@) == deepest(qv, i as nat),
        decreases qs@.len() - i,
    {
        let mut other = false;
        let mut j: usize = 0;
        while j < qs.len()
            invariant
                j <= qs@.len(),
                i < qs@.len(),
                qv == strings_view(qs@),
                other <==> exists|m: int| 0 <= m < j && qv[m] != qv[i as int] && #[trigger] within(qv[i as int], qv[m]),
            decreases qs@.len() - j,
        {
            assert(qv[j as int] == qs@[j as int]@ && qv[i as int] == qs@[i as int]@);
            if qs[j] != qs[i] && is_within(qs[i].as_str(), qs[j].as_str()) {
                other = true;
            }
            j = j + 1;
        }
        let ghost o1 = strings_view(out@);
        if !other {
            out.push(qs[i].clone());
            assert(strings_view(out@) =~= o1.push(qv[i as int]));
        }
        assert(strings_view(out@) =~= deepest(qv, (i + 1) as nat));
        i = i + 1;
    }
    assert(candidates_of(tree@, lists_view(lists@), cv) && strings_view(out@) == sites_of(cv, lists_view(lists@)));
    proof {
        lemma_sites_deepest(cv, lists_view(lists@));
        let sv = strings_view(out@);
        assert forall|i: int, j: int|
            0 <= i < out@.len() && 0 <= j < out@.len() && #[trigger] out@[i]@ != #[trigger] out@[j]@ implies !within(
                out@[i]@,
                out@[j]@,
            ) by {
            assert(sv[i] == out@[i]@ && sv[j] == out@[j]@);
            assert(sv.contains(sv[i]) && sv.contains(sv[j]));
        }
    }
    out
}


/// Model of an instance: its site address and its value.
pub open spec fn inst_view(i: FileInstance) -> (Option<Seq<char>>, JVal) {
    (
        match i.site_address {
            Some(s) => Some(s@),
            None => None,
        },
        i.value@,
    )
}

pub open spec fn insts_view(v: Seq<FileInstance>) -> Seq<(Option<Seq<char>>, JVal)> {
    v.map_values(|i: FileInstance| inst_view(i))
}

/// The subtrees at the first `n` sites, those that exist.
pub open spec fn site_instances(tree: JVal, sites: Seq<Seq<char>>, n: nat) -> Seq<(Option<Seq<char>>, JVal)>
    decreases n,
{
    if n == 0 || n > sites.len() {
        Seq::empty()
    } else {
        site_instances(tree, sites, (n - 1) as nat) + match subtree_at_spec(tree, sites[n - 1]) {
            Some(v) => seq![(Some(sites[n - 1]), v)],
            None => Seq::empty(),
        }
    }
}

/// Every term has a hit and every predicate matches somewhere.
pub open spec fn document_matches(tree: JVal, terms: Seq<TermV>, preds: Seq<PredV>) -> bool {
    &&& forall|i: int| 0 <= i < terms.len() ==> term_hits(tree, #[trigger] terms[i]).len() > 0
    &&& forall|i: int| 0 <= i < preds.len() ==> match_addresses(tree, #[trigger] preds[i]).len() > 0
}

/// Some constraint has no hit at all (or there are none).
pub open spec fn some_constraint_empty(lists: Seq<Seq<Seq<char>>>) -> bool {
    lists.len() == 0 || exists|ci: int| 0 <= ci < lists.len() && #[trigger] lists[ci].len() == 0
}

/// Which instances a file yields, short of co-occurrence: the whole file
/// when there is no filter, or when every constraint is in scope and
/// satisfied somewhere in it; nothing otherwise.
pub open spec fn whole_file_instances(tree: JVal, pattern: Seq<char>, terms: Seq<TermV>, preds: Seq<PredV>) -> Seq<(Option<Seq<char>>, JVal)> {
    if terms.len() == 0 && preds.len() == 0 {
        seq![(None, tree)]
    } else if !all_in_scope(terms, preds, pattern) {
        Seq::empty()
    } else if document_matches(tree, terms, preds) {
        seq![(None, tree)]
    } else {
        Seq::empty()
    }
}

/// The co-occurrence instances of a file whose constraints are all in
/// scope, given its candidate sites `cands`.
pub open spec fn site_file_instances(tree: JVal, terms: Seq<TermV>, preds: Seq<PredV>, cands: Seq<Seq<char>>) -> Seq<(Option<Seq<char>>, JVal)> {
    let lists = constraint_hits(tree, terms, preds);
    if some_constraint_empty(lists) {
        Seq::empty()
    } else {
        let sites = sites_of(cands, lists);
        site_instances(tree, sites, sites.len())
    }
}

fn all_in_scope_exec(options: &BuildOptions, pattern: &str) -> (res: bool)
    ensures
        res == all_in_scope(terms_v(options.where_terms@), preds_v(options.match_preds@), pattern@),
{
    let mut i: usize = 0;
    while i < options.where_terms.len()
        invariant
            i <= options.where_terms@.len(),
            forall|k: int| 0 <= k < i ==> scope_applies((#[trigger] terms_v(options.where_terms@)[k]).scope, pattern@),
        decreases options.where_terms@.len() - i,
    {
        assert(terms_v(options.where_terms@)[i as int] == options.where_terms@[i as int]@);
        if !options.where_terms[i].applies_to_pattern(pattern) {
            return false;
        }
        i = i + 1;
    }
    let mut j: usize = 0;
    while j < options.match_preds.len()
        invariant
            j <= options.match_preds@.len(),
            forall|k: int| 0 <= k < options.where_terms@.len() ==> scope_applies((#[trigger] terms_v(options.where_terms@)[k]).scope, pattern@),
            forall|k: int| 0 <= k < j ==> scope_applies((#[trigger] preds_v(options.match_preds@)[k]).scope, pattern@),
        decreases options.match_preds@.len() - j,
    {
        assert(preds_v(options.match_preds@)[j as int] == options.match_preds@[j as int]@);
        if !options.match_preds[j].applies_to_pattern(pattern) {
            return false;
        }
        j = j + 1;
    }
    true
}

fn whole(owner: &str, repo: &str, path: &str, tree: Json) -> (res: Vec<FileInstance>)
    ensures
        insts_view(res@) == seq![(None::<Seq<char>>, tree@)],
        forall|i: int| 0 <= i < res@.len() ==> (#[trigger] res@[i]).owner@ == owner@ && res@[i].repo@ == repo@ && res@[i].path@ == path@,
{
    let mut out: Vec<FileInstance> = Vec::new();
    let ghost tv = tree@;
    out.push(FileInstance { owner: owner.to_owned(), repo: repo.to_owned(), path: path.to_owned(), site_address: None, value: tree });
    assert(insts_view(out@) =~= seq![(None::<Seq<char>>, tv)]);
    out
}

/// The instances one parsed file contributes to its pattern's group.
pub fn select_instances(owner: &str, repo: &str, path: &str, pattern: &str, tree: Json, options: &BuildOptions) -> (res: Vec<FileInstance>)
    ensures
        forall|i: int| 0 <= i < res@.len() ==> (#[trigger] res@[i]).owner@ == owner@ && res@[i].repo@ == repo@ && res@[i].path@ == path@,
        !options.co_occur || (options.where_terms@.len() == 0 && options.match_preds@.len() == 0) ==> insts_view(res@)
            == whole_file_instances(tree@, pattern@, terms_v(options.where_terms@), preds_v(options.match_preds@)),
        options.co_occur && !(options.where_terms@.len() == 0 && options.match_preds@.len() == 0) && !all_in_scope(
            terms_v(options.where_terms@),
            preds_v(options.match_preds@),
            pattern@,
        ) ==> res@.len() == 0,
        options.co_occur && !(options.where_terms@.len() == 0 && options.match_preds@.len() == 0) && all_in_scope(
            terms_v(options.where_terms@),
            preds_v(options.match_preds@),
            pattern@,
        ) ==> exists|cands: Seq<Seq<char>>|
            #[trigger] candidates_of(
                tree@,
                constraint_hits(tree@, terms_v(options.where_terms@), preds_v(options.match_preds@)),
                cands,
            ) && insts_view(res@) == site_file_instances(
                tree@,
                terms_v(options.where_terms@),
                preds_v(options.match_preds@),
                cands,
            ),
{
    let ghost tv = terms_v(options.where_terms@);
    let ghost pv = preds_v(options.match_preds@);
    let ghost t0 = tree@;
    if options.where_terms.len() == 0 && options.match_preds.len() == 0 {
        return whole(owner, repo, path, tree);
    }
    if !all_in_scope_exec(options, pattern) {
        return Vec::new();
    }
    let lists = constraint_hits_exec(&tree, options);
    let ghost lv = lists_view(lists@);
    if !options.co_occur {
        let mut ok = true;
        let mut ci: usize = 0;
        while ci < lists.len()
            invariant
                ci <= lists@.len(),
                lv == lists_view(lists@),
                ok <==> forall|k: int| 0 <= k < ci ==> #[trigger] lv[k].len() > 0,
            decreases lists@.len() - ci,
        {
            assert(lv[ci as int] == strings_view(lists@[ci as int]@));
            if lists[ci].len() == 0 {
                ok = false;
            }
            ci = ci + 1;
        }
        proof {
            assert(lv.len() == tv.len() + pv.len());
            assert(ok == document_matches(t0, tv, pv)) by {
                if ok {
                    assert forall|i: int| 0 <= i < tv.len() implies term_hits(t0, #[trigger] tv[i]).len() > 0 by {
                        assert(lv[i] == term_hits(t0, tv[i]));
                    }
                    assert forall|i: int| 0 <= i < pv.len() implies match_addresses(t0, #[trigger] pv[i]).len() > 0 by {
                        assert(lv[tv.len() + i] == match_addresses(t0, pv[i]));
                    }
                } else {
                    let k = choose|k: int| 0 <= k < lists@.len() && !(#[trigger] lv[k].len() > 0);
                    if k < tv.len() {
                        assert(lv[k] == term_hits(t0, tv[k]));
                    } else {
                        assert(lv[k] == match_addresses(t0, pv[k - tv.len()]));
                    }
                }
            }
        }
        if ok {
            return whole(owner, repo, path, tree);
        }
        return Vec::new();
    }
    let mut empty = lists.len() == 0;
    let mut ci: usize = 0;
    while ci < lists.len()
        invariant
            ci <= lists@.len(),
            lv == lists_view(lists@),
            empty <==> (lists@.len() == 0 || exists|k: int| 0 <= k < ci && #[trigger] lv[k].len() == 0),
        decreases lists@.len() - ci,
    {
        assert(lv[ci as int] == strings_view(lists@[ci as int]@));
        if lists[ci].len() == 0 {
            empty = true;
        }
        ci = ci + 1;
    }
    let sites = cooccurrence_sites(&tree, &lists);
    let ghost cands = choose|cands: Seq<Seq<char>>|
        #[trigger] candidates_of(t0, lv, cands) && strings_view(sites@) == sites_of(cands, lv);
    if empty {
        assert(some_constraint_empty(lv));
        let out: Vec<FileInstance> = Vec::new();
        assert(insts_view(out@) =~= site_file_instances(t0, tv, pv, cands));
        return out;
    }
    let ghost sv = strings_view(sites@);
    let mut out: Vec<FileInstance> = Vec::new();
    let mut k: usize = 0;
    while k < sites.len()
        invariant
            k <= sites@.len(),
            sv == strings_view(sites@),
            t0 == tree@,
            insts_view(out@) == site_instances(t0, sv, k as nat),
            forall|i: int| 0 <= i < out@.len() ==> (#[trigger] out@[i]).owner@ == owner@ && out@[i].repo@ == repo@ && out@[i].path@ == path@,
        decreases sites@.len() - k,
    {
        assert(sv[k as int] == sites@[k as int]@);
        let ghost o1 = insts_view(out@);
        match subtree_at(&tree, sites[k].as_str()) {
            Some(sub) => {
                let inst = FileInstance {
                    owner: owner.to_owned(),
                    repo: repo.to_owned(),
                    path: path.to_owned(),
                    site_address: Some(sites[k].clone()),
                    value: sub,
                };
                out.push(inst);
                assert(insts_view(out@) =~= o1.push((Some(sv[k as int]), subtree_at_spec(t0, sv[k as int])->0)));
            },
            None => {},
        }
        assert(insts_view(out@) =~= site_instances(t0, sv, (k + 1) as nat));
        k = k + 1;
    }
    assert(insts_view(out@) == site_file_instances(t0, tv, pv, cands));
    out
}


// ---------------------------------------------------------------------------
// Groups and the report
// ---------------------------------------------------------------------------

fn clone_instance(i: &FileInstance) -> (res: FileInstance)
    ensures
        res.owner == i.owner,
        res.repo == i.repo,
        res.path == i.path,
        res.site_address == i.site_address,
        res.value@ == i.value@,
{
    FileInstance {
        owner: i.owner.clone(),
        repo: i.repo.clone(),
        path: i.path.clone(),
        site_address: match &i.site_address {
            Some(s) => Some(s.clone()),
            None => None,
        },
        value: json_clone(&i.value),
    }
}

pub open spec fn inst_full(i: FileInstance) -> (Seq<char>, Seq<char>, Seq<char>, Option<Seq<char>>, JVal) {
    (i.owner@, i.repo@, i.path@, inst_view(i).0, i.value@)
}

pub open spec fn insts_full(v: Seq<FileInstance>) -> Seq<(Seq<char>, Seq<char>, Seq<char>, Option<Seq<char>>, JVal)> {
    v.map_values(|i: FileInstance| inst_full(i))
}

pub type ItemV = (Seq<char>, Seq<(Seq<char>, Seq<char>, Seq<char>, Option<Seq<char>>, JVal)>);

pub open spec fn items_view(v: Seq<(String, Vec<FileInstance>)>) -> Seq<ItemV> {
    v.map_values(|it: (String, Vec<FileInstance>)| (it.0@, insts_full(it.1@)))
}

/// All instances, in arrival order, of the first `n` items under `key`.
pub open spec fn group_of(items: Seq<ItemV>, key: Seq<char>, n: nat) -> Seq<(Seq<char>, Seq<char>, Seq<char>, Option<Seq<char>>, JVal)>
    decreases n,
{
    if n == 0 || n > items.len() {
        Seq::empty()
    } else {
        group_of(items, key, (n - 1) as nat) + if items[n - 1].0 == key {
            items[n - 1].1
        } else {
            Seq::empty()
        }
    }
}

/// A key heads a group when some item under it brings an instance.
pub open spec fn has_group(items: Seq<ItemV>, key: Seq<char>) -> bool {
    exists|i: int| 0 <= i < items.len() && items[i].0 == key && #[trigger] items[i].1.len() > 0
}

/// `groups` gathers the items' instances by pattern, patterns in order.
pub open spec fn grouped(groups: Seq<ItemV>, items: Seq<ItemV>) -> bool {
    &&& strictly_sorted(groups.map_values(|g: ItemV| g.0))
    &&& forall|k: Seq<char>| groups.map_values(|g: ItemV| g.0).contains(k) <==> has_group(items, k)
    &&& forall|j: int| 0 <= j < groups.len() ==> (#[trigger] groups[j]).1 == group_of(items, groups[j].0, items.len())
}

/// Gather per-file instances by pattern: patterns in order, each group's
/// instances in arrival order.
pub fn group_by_pattern(items: &Vec<(String, Vec<FileInstance>)>) -> (res: Vec<(String, Vec<FileInstance>)>)
    ensures
        grouped(items_view(res@), items_view(items@)),
{
    let ghost iv = items_view(items@);
    // The patterns that bring instances, sorted.
    let mut keys: Vec<Vec<char>> = Vec::new();
    let mut n: usize = 0;
    while n < items.len()
        invariant
            n <= items@.len(),
            iv == items_view(items@),
            strictly_sorted(chars_seqs(keys@)),
            forall|k: Seq<char>| chars_seqs(keys@).contains(k) <==> has_group(iv.take(n as int), k),
        decreases items@.len() - n,
    {
        assert(iv[n as int] == (items@[n as int].0@, insts_full(items@[n as int].1@)));
        let ghost pre = iv.take(n as int);
        let ghost post = iv.take(n + 1);
        assert(post =~= pre.push(iv[n as int]));
        let ghost k0 = chars_seqs(keys@);
        if items[n].1.len() > 0 {
            insert_unique_sorted(&mut keys, chars_of(items[n].0.as_str()));
        }
        assert forall|k: Seq<char>| chars_seqs(keys@).contains(k) <==> has_group(post, k) by {
            if has_group(post, k) {
                let i = choose|i: int| 0 <= i < post.len() && post[i].0 == k && #[trigger] post[i].1.len() > 0;
                if i < n {
                    assert(pre[i] == post[i]);
                    assert(has_group(pre, k));
                }
            }
            if has_group(pre, k) {
                let i = choose|i: int| 0 <= i < pre.len() && pre[i].0 == k && #[trigger] pre[i].1.len() > 0;
                assert(post[i] == pre[i]);
            }
            if items@[n as int].1@.len() > 0 && k == items@[n as int].0@ {
                assert(post[n as int].1.len() > 0);
            }
        }
        n = n + 1;
    }
    assert(iv.take(items@.len() as int) =~= iv);
    // One group per pattern, gathered in arrival order.
    let ghost kv = chars_seqs(keys@);
    let mut groups: Vec<(String, Vec<FileInstance>)> = Vec::new();
    let mut j: usize = 0;
    while j < keys.len()
        invariant
            j <= keys@.len(),
            kv == chars_seqs(keys@),
            iv == items_view(items@),
            groups@.len() == j,
            forall|x: int| 0 <= x < j ==> (#[trigger] groups@[x]).0@ == kv[x],
            forall|x: int| 0 <= x < j ==> insts_full((#[trigger] groups@[x]).1@) == group_of(iv, kv[x], iv.len()),
        decreases keys@.len() - j,
    {
        let key = string_of(&keys[j]);
        assert(kv[j as int] == key@);
        let mut grp: Vec<FileInstance> = Vec::new();
        let mut n: usize = 0;
        while n < items.len()
            invariant
                n <= items@.len(),
                iv == items_view(items@),
                insts_full(grp@) == group_of(iv, key@, n as nat),
            decreases items@.len() - n,
        {
            assert(iv[n as int] == (items@[n as int].0@, insts_full(items@[n as int].1@)));
            let ghost g0 = insts_full(grp@);
            if items[n].0 == key {
                let insts = &items[n].1;
                let mut m: usize = 0;
                while m < insts.len()
                    invariant
                        m <= insts@.len(),
                        insts_full(grp@) == g0 + insts_full(insts@).take(m as int),
                    decreases insts@.len() - m,
                {
                    let ghost b = insts_full(grp@);
                    grp.push(clone_instance(&insts[m]));
                    assert(insts_full(grp@) =~= b.push(inst_full(insts@[m as int])));
                    assert(insts_full(insts@).take(m + 1) =~= insts_full(insts@).take(m as int).push(inst_full(insts@[m as int])));
                    m = m + 1;
                }
                assert(insts_full(insts@).take(insts@.len() as int) =~= insts_full(insts@));
            }
            assert(insts_full(grp@) =~= group_of(iv, key@, (n + 1) as nat));
            n = n + 1;
        }
        groups.push((key, grp));
        j = j + 1;
    }
    proof {
        let gv = items_view(groups@);
        assert(gv.map_values(|g: ItemV| g.0) =~= kv);
        assert forall|x: int| 0 <= x < gv.len() implies (#[trigger] gv[x]).1 == group_of(iv, gv[x].0, iv.len()) by {
            assert(gv[x] == (groups@[x].0@, insts_full(groups@[x].1@)));
        }
    }
    groups
}

} // verus!
