//! Hole-address enrichment for search results.
//!
//! A `HoleHit` is a `(pattern, address)` pair with evidence of why that
//! address was flagged: either because a term's needle occurred at it, or
//! because a match predicate resolved to it.

use vstd::prelude::*;
use vstd::string::StringSliceAdditionalSpecFns;
use vstd::utf8::{encode_utf8, encode_utf8_decode_utf8, is_char_boundary};

use crate::address::{MatchV, Match, match_sites, sites_view, subtree_at, subtree_at_spec, walk_matches};
use crate::json::{JVal, Json, json_text, to_text};
use crate::text::{append, append_str, chars_of, string_of};

verus! {

/// The longest snippet, in bytes, before it is cut.
pub const SNIPPET_MAX: usize = 80;

/// `from_utf8_lossy`'s reading of some bytes.
pub uninterp spec fn utf8_lossy(bytes: Seq<u8>) -> Seq<char>;

/// `String::from_utf8_lossy`: the bytes decoded as UTF-8, with each
/// invalid sequence replaced by U+FFFD. Of the result only that valid
/// UTF-8 decodes to the characters it encodes is stated.
#[verifier::external_body]
pub(crate) fn lossy_text(bytes: &[u8]) -> (res: String)
    ensures
        res@ == utf8_lossy(bytes@),
        forall|cs: Seq<char>| bytes@ == encode_utf8(cs) ==> res@ == cs,
{
    String::from_utf8_lossy(bytes).into_owned()
}

/// UTF-8 encoding distributes over concatenation.
pub proof fn lemma_encode_concat(a: Seq<char>, b: Seq<char>)
    ensures
        encode_utf8(a + b) == encode_utf8(a) + encode_utf8(b),
    decreases a.len(),
{
    if a.len() > 0 {
        lemma_encode_concat(a.drop_first(), b);
        assert((a + b).drop_first() =~= a.drop_first() + b);
        assert((a + b)[0] == a[0]);
    } else {
        assert(a + b =~= b);
    }
}

/// Cutting a long text after its first `SNIPPET_MAX` bytes is possible
/// only at a character boundary.
pub open spec fn snippet_fits(s: Seq<char>) -> bool {
    encode_utf8(s).len() > SNIPPET_MAX ==> is_char_boundary(encode_utf8(s), SNIPPET_MAX as int)
}

/// A text of at most `SNIPPET_MAX` bytes as it is; a longer one cut after
/// that many bytes and followed by an ellipsis.
pub open spec fn snippet(s: Seq<char>) -> Seq<char> {
    if encode_utf8(s).len() <= SNIPPET_MAX {
        s
    } else {
        choose|r: Seq<char>|
            #[trigger] encode_utf8(r) == encode_utf8(s).take(SNIPPET_MAX as int) + encode_utf8(
                seq!['…'],
            )
    }
}

pub fn short_snippet(s: &str) -> (res: String)
    requires
        snippet_fits(s@),
    ensures
        res@ == snippet(s@),
{
    if s.as_bytes().len() > SNIPPET_MAX {
        let (head, _tail) = s.split_at(SNIPPET_MAX);
        let mut v = chars_of(head);
        v.push('…');
        proof {
            lemma_encode_concat(head@, seq!['…']);
            assert(v@ =~= head@ + seq!['…']);
            let goal = encode_utf8(s@).take(SNIPPET_MAX as int) + encode_utf8(seq!['…']);
            assert(encode_utf8(v@) =~= goal);
            let r = choose|r: Seq<char>| encode_utf8(r) == goal;
            encode_utf8_decode_utf8(r);
            encode_utf8_decode_utf8(v@);
            assert(r == v@);
            assert(snippet(s@) == r);
        }
        string_of(&v)
    } else {
        s.to_owned()
    }
}

/// Why an address was flagged.
#[derive(Debug, Clone)]
pub enum HoleEvidence {
    /// Walking the tree for a term's needle reached the address. `term` is
    /// the term's display form; `needle` the alternative that matched.
    Needle { term: String, needle: String },
    /// A match predicate emitted the address; `predicate` is its text.
    Predicate { predicate: String },
}

pub enum EvidenceV {
    Needle(Seq<char>, Seq<char>),
    Predicate(Seq<char>),
}

impl View for HoleEvidence {
    type V = EvidenceV;

    open spec fn view(&self) -> EvidenceV {
        match self {
            HoleEvidence::Needle { term, needle } => EvidenceV::Needle(term@, needle@),
            HoleEvidence::Predicate { predicate } => EvidenceV::Predicate(predicate@),
        }
    }
}

/// A flagged address in a file.
#[derive(Debug, Clone)]
pub struct HoleHit {
    pub pattern: String,
    pub address: String,
    pub evidence: HoleEvidence,
    pub snippet: String,
    pub owner: String,
    pub repo: String,
    pub file_path: String,
}

pub struct HoleHitV {
    pub pattern: Seq<char>,
    pub address: Seq<char>,
    pub evidence: EvidenceV,
    pub snippet: Seq<char>,
    pub owner: Seq<char>,
    pub repo: Seq<char>,
    pub file_path: Seq<char>,
}

impl View for HoleHit {
    type V = HoleHitV;

    open spec fn view(&self) -> HoleHitV {
        HoleHitV {
            pattern: self.pattern@,
            address: self.address@,
            evidence: self.evidence@,
            snippet: self.snippet@,
            owner: self.owner@,
            repo: self.repo@,
            file_path: self.file_path@,
        }
    }
}

pub open spec fn hits_view(v: Seq<HoleHit>) -> Seq<HoleHitV> {
    v.map_values(|h: HoleHit| h@)
}

/// A file that contributed evidence to a search, with all sources that
/// flagged it.
#[derive(Debug, Clone)]
pub struct MatchedFile {
    pub owner: String,
    pub repo: String,
    pub file_path: String,
    pub pattern: String,
    pub bytes: Vec<u8>,
    /// Pairs of `(term_raw, needle)`: for each needle, the tree is walked
    /// to surface every address containing it.
    pub needle_sources: Vec<(String, String)>,
    /// Pairs of `(predicate_raw, concrete_address)`: each address is
    /// surfaced directly, with a snippet of the subtree there.
    pub predicate_sources: Vec<(String, String)>,
}

/// The snippet shown for a needle hit.
pub open spec fn site_snippet(m: MatchV) -> Seq<char> {
    match m {
        MatchV::Leaf(JVal::Str(s)) => snippet(s),
        MatchV::Leaf(v) => json_text(v),
        MatchV::Key(k) => "(key) "@ + k,
    }
}

/// The snippet shown for a predicate hit at `address`.
pub open spec fn address_snippet(tree: JVal, address: Seq<char>) -> Seq<char> {
    match subtree_at_spec(tree, address) {
        Some(JVal::Str(s)) => snippet(s),
        Some(v) => snippet(json_text(v)),
        None => Seq::empty(),
    }
}

pub open spec fn hit_of(m: MatchedFile, address: Seq<char>, evidence: EvidenceV, snip: Seq<char>) -> HoleHitV {
    HoleHitV {
        pattern: m.pattern@,
        address,
        evidence,
        snippet: snip,
        owner: m.owner@,
        repo: m.repo@,
        file_path: m.file_path@,
    }
}

/// The hits for the first `n` sites of one needle.
pub open spec fn site_hits(m: MatchedFile, term: Seq<char>, needle: Seq<char>, sites: Seq<(Seq<char>, MatchV)>, n: nat) -> Seq<HoleHitV>
    decreases n,
{
    if n == 0 || n > sites.len() {
        Seq::empty()
    } else {
        site_hits(m, term, needle, sites, (n - 1) as nat).push(
            hit_of(m, sites[n - 1].0, EvidenceV::Needle(term, needle), site_snippet(sites[n - 1].1)),
        )
    }
}

/// The hits for the first `n` needle sources of a file.
pub open spec fn needle_hits(m: MatchedFile, tree: Option<JVal>, n: nat) -> Seq<HoleHitV>
    decreases n,
{
    if n == 0 || n > m.needle_sources@.len() {
        Seq::empty()
    } else {
        let (term, needle) = m.needle_sources@[n - 1];
        needle_hits(m, tree, (n - 1) as nat) + match tree {
            Some(t) => {
                let sites = match_sites(t, Seq::empty(), needle@);
                site_hits(m, term@, needle@, sites, sites.len())
            },
            None => seq![
                hit_of(m, "$"@, EvidenceV::Needle(term@, needle@), snippet(utf8_lossy(m.bytes@))),
            ],
        }
    }
}

/// The hits for the first `n` predicate sources of a file.
pub open spec fn predicate_hits(m: MatchedFile, tree: Option<JVal>, n: nat) -> Seq<HoleHitV>
    decreases n,
{
    if n == 0 || n > m.predicate_sources@.len() {
        Seq::empty()
    } else {
        let (predicate, address) = m.predicate_sources@[n - 1];
        predicate_hits(m, tree, (n - 1) as nat).push(
            hit_of(
                m,
                address@,
                EvidenceV::Predicate(predicate@),
                match tree {
                    Some(t) => address_snippet(t, address@),
                    None => Seq::empty(),
                },
            ),
        )
    }
}

/// Every hit of one file: needle hits first, then predicate hits.
pub open spec fn file_hits(m: MatchedFile, tree: Option<JVal>) -> Seq<HoleHitV> {
    needle_hits(m, tree, m.needle_sources@.len()) + predicate_hits(
        m,
        tree,
        m.predicate_sources@.len(),
    )
}

/// Every hit of the first `n` files.
pub open spec fn all_hits(ms: Seq<MatchedFile>, trees: Seq<Option<Json>>, n: nat) -> Seq<HoleHitV>
    decreases n,
{
    if n == 0 || n > ms.len() {
        Seq::empty()
    } else {
        all_hits(ms, trees, (n - 1) as nat) + file_hits(ms[n - 1], opt_view(trees[n - 1]))
    }
}

pub open spec fn opt_view(t: Option<Json>) -> Option<JVal> {
    match t {
        Some(j) => Some(j@),
        None => None,
    }
}

/// Every snippet a file's hits would cut can be cut.
pub open spec fn file_snippets_fit(m: MatchedFile, tree: Option<JVal>) -> bool {
    match tree {
        Some(t) => {
            &&& forall|k: int, i: int|
                #![trigger match_sites(t, Seq::empty(), m.needle_sources@[k].1@)[i]]
                0 <= k < m.needle_sources@.len() && 0 <= i < match_sites(
                    t,
                    Seq::empty(),
                    m.needle_sources@[k].1@,
                ).len() ==> match match_sites(t, Seq::empty(), m.needle_sources@[k].1@)[i].1 {
                    MatchV::Leaf(JVal::Str(s)) => snippet_fits(s),
                    _ => true,
                }
            &&& forall|k: int|
                0 <= k < m.predicate_sources@.len() ==> match subtree_at_spec(
                    t,
                    (#[trigger] m.predicate_sources@[k]).1@,
                ) {
                    Some(JVal::Str(s)) => snippet_fits(s),
                    Some(v) => snippet_fits(json_text(v)),
                    None => true,
                }
        },
        None => m.needle_sources@.len() > 0 ==> snippet_fits(utf8_lossy(m.bytes@)),
    }
}

fn make_hit(m: &MatchedFile, address: String, evidence: HoleEvidence, snip: String) -> (res: HoleHit)
    ensures
        res@ == hit_of(*m, address@, evidence@, snip@),
{
    HoleHit {
        pattern: m.pattern.clone(),
        address,
        evidence,
        snippet: snip,
        owner: m.owner.clone(),
        repo: m.repo.clone(),
        file_path: m.file_path.clone(),
    }
}

/// The snippet for one needle site.
fn snippet_for_site(what: &Match) -> (res: String)
    requires
        match what@ {
            MatchV::Leaf(JVal::Str(s)) => snippet_fits(s),
            _ => true,
        },
    ensures
        res@ == site_snippet(what@),
{
    match what {
        Match::Leaf(v) => match v {
            Json::Str(s) => short_snippet(s.as_str()),
            other => to_text(other),
        },
        Match::Key(k) => {
            let mut out: Vec<char> = Vec::new();
            append_str(&mut out, "(key) ");
            append(&mut out, &chars_of(k.as_str()));
            string_of(&out)
        },
    }
}

/// The hits of one file, appended to `out`.
fn enrich_file(m: &MatchedFile, tree: &Option<Json>, out: &mut Vec<HoleHit>)
    requires
        file_snippets_fit(*m, opt_view(*tree)),
    ensures
        hits_view(final(out)@) == hits_view(old(out)@) + file_hits(*m, opt_view(*tree)),
{
    let ghost start = hits_view(out@);
    let ghost tv = opt_view(*tree);
    let mut k: usize = 0;
    assert(hits_view(out@) =~= start + needle_hits(*m, tv, 0));
    while k < m.needle_sources.len()
        invariant
            k <= m.needle_sources@.len(),
            tv == opt_view(*tree),
            file_snippets_fit(*m, tv),
            hits_view(out@) == start + needle_hits(*m, tv, k as nat),
        decreases m.needle_sources@.len() - k,
    {
        let term = &m.needle_sources[k].0;
        let needle = &m.needle_sources[k].1;
        let ghost mid = hits_view(out@);
        match tree {
            Some(t) => {
                let sites = walk_matches(t, needle.as_str());
                let ghost sv = sites_view(sites@);
                let mut i: usize = 0;
                assert(hits_view(out@) =~= mid + site_hits(*m, term@, needle@, sv, 0));
                while i < sites.len()
                    invariant
                        i <= sites@.len(),
                        sv == sites_view(sites@),
                        sv == match_sites(t@, Seq::empty(), needle@),
                        needle@ == m.needle_sources@[k as int].1@,
                        k < m.needle_sources@.len(),
                        tv == Some(t@),
                        file_snippets_fit(*m, tv),
                        hits_view(out@) == mid + site_hits(*m, term@, needle@, sv, i as nat),
                    decreases sites@.len() - i,
                {
                    assert(sv[i as int] == (sites@[i as int].0@, sites@[i as int].1@));
                    let snip = snippet_for_site(&sites[i].1);
                    let ev = HoleEvidence::Needle { term: term.clone(), needle: needle.clone() };
                    let h = make_hit(m, sites[i].0.clone(), ev, snip);
                    let ghost o1 = hits_view(out@);
                    out.push(h);
                    assert(hits_view(out@) =~= o1.push(h@));
                    i = i + 1;
                }
            },
            None => {
                let text = lossy_text(m.bytes.as_slice());
                let snip = short_snippet(text.as_str());
                let ev = HoleEvidence::Needle { term: term.clone(), needle: needle.clone() };
                let mut addr: Vec<char> = Vec::new();
                addr.push('$');
                proof {
                    reveal_strlit("$");
                }
                assert(addr@ =~= "$"@);
                let h = make_hit(m, string_of(&addr), ev, snip);
                let ghost o1 = hits_view(out@);
                out.push(h);
                assert(hits_view(out@) =~= o1.push(h@));
            },
        }
        assert(hits_view(out@) =~= start + needle_hits(*m, tv, (k + 1) as nat));
        k = k + 1;
    }
    let ghost after_needles = hits_view(out@);
    let mut p: usize = 0;
    assert(hits_view(out@) =~= after_needles + predicate_hits(*m, tv, 0));
    while p < m.predicate_sources.len()
        invariant
            p <= m.predicate_sources@.len(),
            tv == opt_view(*tree),
            file_snippets_fit(*m, tv),
            hits_view(out@) == after_needles + predicate_hits(*m, tv, p as nat),
        decreases m.predicate_sources@.len() - p,
    {
        let predicate = &m.predicate_sources[p].0;
        let address = &m.predicate_sources[p].1;
        let snip = match tree {
            Some(t) => match subtree_at(t, address.as_str()) {
                Some(Json::Str(s)) => short_snippet(s.as_str()),
                Some(other) => {
                    let txt = to_text(&other);
                    short_snippet(txt.as_str())
                },
                None => String::new(),
            },
            None => String::new(),
        };
        let ev = HoleEvidence::Predicate { predicate: predicate.clone() };
        let h = make_hit(m, address.clone(), ev, snip);
        let ghost o1 = hits_view(out@);
        out.push(h);
        assert(hits_view(out@) =~= o1.push(h@));
        assert(hits_view(out@) =~= after_needles + predicate_hits(*m, tv, (p + 1) as nat));
        p = p + 1;
    }
}

/// Whether `short_snippet` can cut this text.
pub fn snippet_text_fits(s: &str) -> (res: bool)
    ensures
        res == snippet_fits(s@),
{
    s.as_bytes().len() <= SNIPPET_MAX || s.is_char_boundary(SNIPPET_MAX)
}

/// A site's snippet can be cut, if the site is a string leaf.
pub open spec fn site_fits(site: (Seq<char>, MatchV)) -> bool {
    match site.1 {
        MatchV::Leaf(JVal::Str(s)) => snippet_fits(s),
        _ => true,
    }
}

/// Whether every snippet that `enrich_with_holes` would cut for this file
/// can be cut.
pub fn snippets_fit(m: &MatchedFile, tree: &Option<Json>) -> (res: bool)
    ensures
        res == file_snippets_fit(*m, opt_view(*tree)),
{
    match tree {
        None => {
            if m.needle_sources.len() == 0 {
                return true;
            }
            let text = lossy_text(m.bytes.as_slice());
            snippet_text_fits(text.as_str())
        },
        Some(t) => {
            let ghost tv = t@;
            assert(opt_view(*tree) == Some(tv));
            let mut k: usize = 0;
            while k < m.needle_sources.len()
                invariant
                    k <= m.needle_sources@.len(),
                    tv == t@,
                    opt_view(*tree) == Some(tv),
                    forall|kk: int, i: int|
                        #![trigger match_sites(tv, Seq::empty(), m.needle_sources@[kk].1@)[i]]
                        0 <= kk < k && 0 <= i < match_sites(
                            tv,
                            Seq::empty(),
                            m.needle_sources@[kk].1@,
                        ).len() ==> site_fits(
                            match_sites(tv, Seq::empty(), m.needle_sources@[kk].1@)[i],
                        ),
                decreases m.needle_sources@.len() - k,
            {
                let sites = walk_matches(t, m.needle_sources[k].1.as_str());
                let ghost sv = sites_view(sites@);
                let mut i: usize = 0;
                while i < sites.len()
                    invariant
                        i <= sites@.len(),
                        opt_view(*tree) == Some(tv),
                        sv == sites_view(sites@),
                        k < m.needle_sources@.len(),
                        sv == match_sites(tv, Seq::empty(), m.needle_sources@[k as int].1@),
                        forall|ii: int| 0 <= ii < i ==> site_fits(#[trigger] sv[ii]),
                    decreases sites@.len() - i,
                {
                    assert(sv[i as int] == (sites@[i as int].0@, sites@[i as int].1@));
                    match &sites[i].1 {
                        Match::Leaf(Json::Str(s)) => {
                            if !snippet_text_fits(s.as_str()) {
                                assert(!site_fits(sv[i as int]));
                                assert(sv[i as int] == match_sites(
                                    tv,
                                    Seq::empty(),
                                    m.needle_sources@[k as int].1@,
                                )[i as int]);
                                return false;
                            }
                        },
                        _ => {},
                    }
                    i = i + 1;
                }
                assert forall|kk: int, ii: int|
                    #![trigger match_sites(tv, Seq::empty(), m.needle_sources@[kk].1@)[ii]]
                    0 <= kk < k + 1 && 0 <= ii < match_sites(
                        tv,
                        Seq::empty(),
                        m.needle_sources@[kk].1@,
                    ).len() implies site_fits(
                        match_sites(tv, Seq::empty(), m.needle_sources@[kk].1@)[ii],
                    ) by {
                    if kk == k {
                        assert(site_fits(sv[ii]));
                    }
                }
                k = k + 1;
            }
            let mut p: usize = 0;
            while p < m.predicate_sources.len()
                invariant
                    p <= m.predicate_sources@.len(),
                    tv == t@,
                    opt_view(*tree) == Some(tv),
                    forall|kk: int|
                        0 <= kk < p ==> match subtree_at_spec(
                            tv,
                            (#[trigger] m.predicate_sources@[kk]).1@,
                        ) {
                            Some(JVal::Str(s)) => snippet_fits(s),
                            Some(v) => snippet_fits(json_text(v)),
                            None => true,
                        },
                decreases m.predicate_sources@.len() - p,
            {
                match subtree_at(t, m.predicate_sources[p].1.as_str()) {
                    Some(Json::Str(s)) => {
                        if !snippet_text_fits(s.as_str()) {
                            assert(subtree_at_spec(tv, m.predicate_sources@[p as int].1@) == Some(
                                JVal::Str(s@),
                            ));
                            return false;
                        }
                    },
                    Some(other) => {
                        let txt = to_text(&other);
                        if !snippet_text_fits(txt.as_str()) {
                            assert(subtree_at_spec(tv, m.predicate_sources@[p as int].1@) == Some(
                                other@,
                            ));
                            return false;
                        }
                    },
                    None => {},
                }
                p = p + 1;
            }
            proof {
                assert forall|kk: int, i: int|
                    #![trigger match_sites(tv, Seq::empty(), m.needle_sources@[kk].1@)[i]]
                    0 <= kk < m.needle_sources@.len() && 0 <= i < match_sites(
                        tv,
                        Seq::empty(),
                        m.needle_sources@[kk].1@,
                    ).len() implies match match_sites(tv, Seq::empty(), m.needle_sources@[kk].1@)[i].1 {
                        MatchV::Leaf(JVal::Str(s)) => snippet_fits(s),
                        _ => true,
                    } by {
                    assert(site_fits(match_sites(tv, Seq::empty(), m.needle_sources@[kk].1@)[i]));
                }
            }
            true
        },
    }
}

/// Enrich file matches with hole-level addresses. `trees[i]` is the parsed
/// tree of `matches[i]`, or `None` when it did not parse.
pub fn enrich_with_holes(matches: &Vec<MatchedFile>, trees: &Vec<Option<Json>>) -> (res: Vec<HoleHit>)
    requires
        trees@.len() == matches@.len(),
        forall|i: int|
            0 <= i < matches@.len() ==> file_snippets_fit(
                #[trigger] matches@[i],
                opt_view(trees@[i]),
            ),
    ensures
        hits_view(res@) == all_hits(matches@, trees@, matches@.len()),
{
    let mut out: Vec<HoleHit> = Vec::new();
    let mut i: usize = 0;
    assert(hits_view(out@) =~= all_hits(matches@, trees@, 0));
    while i < matches.len()
        invariant
            i <= matches@.len(),
            trees@.len() == matches@.len(),
            forall|j: int|
                0 <= j < matches@.len() ==> file_snippets_fit(
                    #[trigger] matches@[j],
                    opt_view(trees@[j]),
                ),
            hits_view(out@) == all_hits(matches@, trees@, i as nat),
        decreases matches@.len() - i,
    {
        enrich_file(&matches[i], &trees[i], &mut out);
        i = i + 1;
    }
    out
}

/// `enrich_with_holes` where every snippet can be cut; `None` where some
/// file holds a text whose cut would fall inside a character, or where the
/// trees do not pair up with the matches.
pub fn enrich_checked(matches: &Vec<MatchedFile>, trees: &Vec<Option<Json>>) -> (res: Option<
    Vec<HoleHit>,
>)
    ensures
        match res {
            Some(hits) => {
                &&& trees@.len() == matches@.len()
                &&& hits_view(hits@) == all_hits(matches@, trees@, matches@.len())
            },
            None => trees@.len() != matches@.len() || exists|i: int|
                0 <= i < matches@.len() && !file_snippets_fit(
                    #[trigger] matches@[i],
                    opt_view(trees@[i]),
                ),
        },
{
    if trees.len() != matches.len() {
        return None;
    }
    let mut i: usize = 0;
    while i < matches.len()
        invariant
            i <= matches@.len(),
            trees@.len() == matches@.len(),
            forall|j: int|
                0 <= j < i ==> file_snippets_fit(#[trigger] matches@[j], opt_view(trees@[j])),
        decreases matches@.len() - i,
    {
        if !snippets_fit(&matches[i], &trees[i]) {
            return None;
        }
        i = i + 1;
    }
    Some(enrich_with_holes(matches, trees))
}

} // verus!
