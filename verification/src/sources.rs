//! The files a search's evidence points at, each with the evidence that
//! points at it: needles that matched it and addresses where predicates
//! held, keyed and ordered by `(owner, repo, path)`.

use vstd::prelude::*;

use crate::search::{MatchFileHit, MatchHit, RepoMatch, TermHit};
use crate::text::{chars_of, compare_chars, compare_chars_exec, lemma_compare_chars_props, lemma_compare_chars_trans};

verus! {

pub type Key = (Seq<char>, Seq<char>, Seq<char>);

/// What one piece of evidence says of a file.
pub enum SourceV {
    /// The file was named by a predicate's hits, with or without addresses.
    Touch,
    /// A term (its text) matched the file with a needle.
    Needle(Seq<char>, Seq<char>),
    /// A predicate (its text) held at an address of the file.
    Address(Seq<char>, Seq<char>),
}

pub type Event = (Key, SourceV);

/// Keys compared by owner, then repo, then path: negative, zero or positive.
pub open spec fn compare_key(a: Key, b: Key) -> int {
    if compare_chars(a.0, b.0) != 0 {
        compare_chars(a.0, b.0)
    } else if compare_chars(a.1, b.1) != 0 {
        compare_chars(a.1, b.1)
    } else {
        compare_chars(a.2, b.2)
    }
}

pub open spec fn key_lt(a: Key, b: Key) -> bool {
    compare_key(a, b) < 0
}

pub proof fn lemma_compare_key_props(a: Key, b: Key)
    ensures
        compare_key(a, b) == -compare_key(b, a),
        -1 <= compare_key(a, b) <= 1,
        (compare_key(a, b) == 0) == (a == b),
{
    lemma_compare_chars_props(a.0, b.0);
    lemma_compare_chars_props(a.1, b.1);
    lemma_compare_chars_props(a.2, b.2);
}

pub proof fn lemma_key_lt_trans(a: Key, b: Key, c: Key)
    requires
        key_lt(a, b),
        key_lt(b, c),
    ensures
        key_lt(a, c),
{
    lemma_compare_chars_props(a.0, b.0);
    lemma_compare_chars_props(b.0, c.0);
    lemma_compare_chars_props(a.0, c.0);
    lemma_compare_chars_props(a.1, b.1);
    lemma_compare_chars_props(b.1, c.1);
    lemma_compare_chars_props(a.1, c.1);
    if compare_chars(a.0, b.0) < 0 && compare_chars(b.0, c.0) < 0 {
        lemma_compare_chars_trans(a.0, b.0, c.0);
    } else if compare_chars(a.0, b.0) == 0 && compare_chars(b.0, c.0) == 0 {
        if compare_chars(a.1, b.1) < 0 && compare_chars(b.1, c.1) < 0 {
            lemma_compare_chars_trans(a.1, b.1, c.1);
        } else if compare_chars(a.1, b.1) == 0 && compare_chars(b.1, c.1) == 0 {
            lemma_compare_chars_trans(a.2, b.2, c.2);
        }
    }
}

// ---------------------------------------------------------------------------
// The evidence, in the order it is read
// ---------------------------------------------------------------------------

pub open spec fn term_hit_events(owner: Seq<char>, repo: Seq<char>, h: TermHit) -> Seq<Event> {
    Seq::new(
        h.files@.len(),
        |i: int| ((owner, repo, h.files@[i].path@), SourceV::Needle(h.term@, h.files@[i].matched_needle@)),
    )
}

pub open spec fn hits_events(owner: Seq<char>, repo: Seq<char>, hits: Seq<TermHit>) -> Seq<Event>
    decreases hits.len(),
{
    if hits.len() == 0 {
        Seq::empty()
    } else {
        hits_events(owner, repo, hits.drop_last()) + term_hit_events(owner, repo, hits.last())
    }
}

pub open spec fn match_file_events(owner: Seq<char>, repo: Seq<char>, pred: Seq<char>, f: MatchFileHit) -> Seq<
    Event,
> {
    seq![((owner, repo, f.path@), SourceV::Touch)] + Seq::new(
        f.addresses@.len(),
        |i: int| ((owner, repo, f.path@), SourceV::Address(pred, f.addresses@[i]@)),
    )
}

pub open spec fn match_files_events(
    owner: Seq<char>,
    repo: Seq<char>,
    pred: Seq<char>,
    files: Seq<MatchFileHit>,
) -> Seq<Event>
    decreases files.len(),
{
    if files.len() == 0 {
        Seq::empty()
    } else {
        match_files_events(owner, repo, pred, files.drop_last()) + match_file_events(
            owner,
            repo,
            pred,
            files.last(),
        )
    }
}

pub open spec fn match_hits_events(owner: Seq<char>, repo: Seq<char>, mhs: Seq<MatchHit>) -> Seq<Event>
    decreases mhs.len(),
{
    if mhs.len() == 0 {
        Seq::empty()
    } else {
        match_hits_events(owner, repo, mhs.drop_last()) + match_files_events(
            owner,
            repo,
            mhs.last().predicate@,
            mhs.last().files@,
        )
    }
}

pub open spec fn repo_events(r: RepoMatch) -> Seq<Event> {
    hits_events(r.owner@, r.repo@, r.hits@) + match_hits_events(r.owner@, r.repo@, r.match_hits@)
}

/// Every piece of evidence of the matched repositories, repository by
/// repository, terms before predicates.
pub open spec fn all_events(repos: Seq<RepoMatch>) -> Seq<Event>
    decreases repos.len(),
{
    if repos.len() == 0 {
        Seq::empty()
    } else {
        all_events(repos.drop_last()) + repo_events(repos.last())
    }
}

// ---------------------------------------------------------------------------
// What is gathered per file
// ---------------------------------------------------------------------------

/// The needles, in order, that the evidence gives the file `k`.
pub open spec fn needles_of(evs: Seq<Event>, k: Key) -> Seq<(Seq<char>, Seq<char>)>
    decreases evs.len(),
{
    if evs.len() == 0 {
        Seq::empty()
    } else {
        let rest = needles_of(evs.drop_last(), k);
        match evs.last() {
            (ek, SourceV::Needle(t, n)) => if ek == k {
                rest.push((t, n))
            } else {
                rest
            },
            _ => rest,
        }
    }
}

/// The predicate addresses, in order, that the evidence gives the file `k`.
pub open spec fn addresses_of(evs: Seq<Event>, k: Key) -> Seq<(Seq<char>, Seq<char>)>
    decreases evs.len(),
{
    if evs.len() == 0 {
        Seq::empty()
    } else {
        let rest = addresses_of(evs.drop_last(), k);
        match evs.last() {
            (ek, SourceV::Address(p, a)) => if ek == k {
                rest.push((p, a))
            } else {
                rest
            },
            _ => rest,
        }
    }
}

pub open spec fn names_key(evs: Seq<Event>, k: Key) -> bool {
    exists|e: int| 0 <= e < evs.len() && (#[trigger] evs[e]).0 == k
}

proof fn lemma_unnamed_empty(evs: Seq<Event>, k: Key)
    requires
        !names_key(evs, k),
    ensures
        needles_of(evs, k) == Seq::<(Seq<char>, Seq<char>)>::empty(),
        addresses_of(evs, k) == Seq::<(Seq<char>, Seq<char>)>::empty(),
    decreases evs.len(),
{
    if evs.len() > 0 {
        assert(!names_key(evs.drop_last(), k)) by {
            if names_key(evs.drop_last(), k) {
                let e = choose|e: int| 0 <= e < evs.drop_last().len() && (#[trigger] evs.drop_last()[e]).0 == k;
                assert(evs[e] == evs.drop_last()[e]);
            }
        }
        lemma_unnamed_empty(evs.drop_last(), k);
        assert(evs[evs.len() - 1].0 != k);
    }
}

/// A file and the evidence that points at it.
#[derive(Debug, Clone)]
pub struct FileSources {
    pub owner: String,
    pub repo: String,
    pub path: String,
    /// `(term, needle)` pairs.
    pub needles: Vec<(String, String)>,
    /// `(predicate, address)` pairs.
    pub addresses: Vec<(String, String)>,
}

pub open spec fn pairs_view(v: Seq<(String, String)>) -> Seq<(Seq<char>, Seq<char>)> {
    v.map_values(|p: (String, String)| (p.0@, p.1@))
}

pub open spec fn key_of(f: FileSources) -> Key {
    (f.owner@, f.repo@, f.path@)
}

/// `out` gathers the evidence `evs`: one entry per file named, ordered by
/// key, each with its needles and addresses in the order they came.
pub open spec fn gathers(out: Seq<FileSources>, evs: Seq<Event>) -> bool {
    &&& forall|i: int, j: int| 0 <= i < j < out.len() ==> key_lt(key_of(#[trigger] out[i]), key_of(#[trigger] out[j]))
    &&& forall|i: int| 0 <= i < out.len() ==> names_key(evs, key_of(#[trigger] out[i]))
    &&& forall|e: int| 0 <= e < evs.len() ==> exists|i: int| 0 <= i < out.len() && key_of(#[trigger] out[i]) == (#[trigger] evs[e]).0
    &&& forall|i: int| 0 <= i < out.len() ==> pairs_view((#[trigger] out[i]).needles@) == needles_of(evs, key_of(out[i]))
    &&& forall|i: int| 0 <= i < out.len() ==> pairs_view((#[trigger] out[i]).addresses@) == addresses_of(evs, key_of(out[i]))
}

proof fn lemma_needles_step(evs: Seq<Event>, ev: Event, k: Key)
    ensures
        needles_of(evs.push(ev), k) == match ev {
            (ek, SourceV::Needle(t, n)) => if ek == k {
                needles_of(evs, k).push((t, n))
            } else {
                needles_of(evs, k)
            },
            _ => needles_of(evs, k),
        },
        addresses_of(evs.push(ev), k) == match ev {
            (ek, SourceV::Address(p, a)) => if ek == k {
                addresses_of(evs, k).push((p, a))
            } else {
                addresses_of(evs, k)
            },
            _ => addresses_of(evs, k),
        },
{
    assert(evs.push(ev).drop_last() =~= evs);
}

/// One piece of evidence, as handed to `add_event`.
enum SourceArg<'a> {
    Touch,
    Needle(&'a String, &'a String),
    Address(&'a String, &'a String),
}

spec fn arg_view(a: SourceArg) -> SourceV {
    match a {
        SourceArg::Touch => SourceV::Touch,
        SourceArg::Needle(t, n) => SourceV::Needle(t@, n@),
        SourceArg::Address(p, x) => SourceV::Address(p@, x@),
    }
}

fn compare_key_exec(f: &FileSources, k: &(Vec<char>, Vec<char>, Vec<char>)) -> (res: i8)
    ensures
        res as int == compare_key(key_of(*f), (k.0@, k.1@, k.2@)),
{
    let c = compare_chars_exec(&chars_of(f.owner.as_str()), &k.0);
    if c != 0 {
        return c;
    }
    let c = compare_chars_exec(&chars_of(f.repo.as_str()), &k.1);
    if c != 0 {
        return c;
    }
    compare_chars_exec(&chars_of(f.path.as_str()), &k.2)
}

fn add_event(
    out: &mut Vec<FileSources>,
    owner: &String,
    repo: &String,
    path: &String,
    src: SourceArg,
    Ghost(evs): Ghost<Seq<Event>>,
)
    requires
        gathers(old(out)@, evs),
    ensures
        gathers(final(out)@, evs.push(((owner@, repo@, path@), arg_view(src)))),
{
    let ghost k: Key = (owner@, repo@, path@);
    let ghost ev: Event = (k, arg_view(src));
    let ghost evs2 = evs.push(ev);
    let kx = (chars_of(owner.as_str()), chars_of(repo.as_str()), chars_of(path.as_str()));
    let mut p: usize = 0;
    while p < out.len() && compare_key_exec(&out[p], &kx) < 0
        invariant
            p <= out@.len(),
            k == (kx.0@, kx.1@, kx.2@),
            forall|x: int| 0 <= x < p ==> key_lt(key_of(#[trigger] out@[x]), k),
        decreases out@.len() - p,
    {
        p = p + 1;
    }
    let ghost o0 = out@;
    proof {
        assert forall|kk: Key| #![auto] true implies needles_of(evs2, kk) == (match ev {
            (ek, SourceV::Needle(t, n)) => if ek == kk {
                needles_of(evs, kk).push((t, n))
            } else {
                needles_of(evs, kk)
            },
            _ => needles_of(evs, kk),
        }) && addresses_of(evs2, kk) == (match ev {
            (ek, SourceV::Address(q, a)) => if ek == kk {
                addresses_of(evs, kk).push((q, a))
            } else {
                addresses_of(evs, kk)
            },
            _ => addresses_of(evs, kk),
        }) by {
            lemma_needles_step(evs, ev, kk);
        }
        assert forall|e: int| 0 <= e < evs.len() implies #[trigger] evs2[e] == evs[e] by {}
        assert forall|kk: Key| names_key(evs, kk) implies names_key(evs2, kk) by {
            let e = choose|e: int| 0 <= e < evs.len() && (#[trigger] evs[e]).0 == kk;
            assert(evs2[e] == evs[e]);
        }
        assert(evs2[evs.len() as int] == ev);
        assert(names_key(evs2, k));
    }
    let found = p < out.len() && compare_key_exec(&out[p], &kx) == 0;
    if found {
        proof {
            lemma_compare_key_props(key_of(o0[p as int]), k);
            assert forall|i: int| 0 <= i < o0.len() && i != p implies key_of(#[trigger] o0[i]) != k by {
                if i < p {
                    assert(key_lt(key_of(o0[i]), key_of(o0[p as int])));
                    lemma_compare_key_props(key_of(o0[i]), key_of(o0[p as int]));
                } else {
                    assert(key_lt(key_of(o0[p as int]), key_of(o0[i])));
                    lemma_compare_key_props(key_of(o0[i]), key_of(o0[p as int]));
                }
            }
        }
        let mut e = out.remove(p);
        match src {
            SourceArg::Touch => {},
            SourceArg::Needle(t, n) => {
                e.needles.push((t.clone(), n.clone()));
            },
            SourceArg::Address(q, a) => {
                e.addresses.push((q.clone(), a.clone()));
            },
        }
        out.insert(p, e);
        proof {
            assert forall|i: int| 0 <= i < out@.len() && i != p implies #[trigger] out@[i] == o0[i] by {}
            assert(key_of(out@[p as int]) == k);
            match arg_view(src) {
                SourceV::Needle(t, n) => {
                    assert(pairs_view(out@[p as int].needles@) =~= pairs_view(o0[p as int].needles@).push((t, n)));
                    assert(pairs_view(out@[p as int].addresses@) =~= pairs_view(o0[p as int].addresses@));
                },
                SourceV::Address(q, a) => {
                    assert(pairs_view(out@[p as int].addresses@) =~= pairs_view(o0[p as int].addresses@).push((q, a)));
                    assert(pairs_view(out@[p as int].needles@) =~= pairs_view(o0[p as int].needles@));
                },
                SourceV::Touch => {},
            }
            assert forall|x: int| 0 <= x < evs2.len() implies exists|i: int| 0 <= i < out@.len() && key_of(#[trigger] out@[i]) == (#[trigger] evs2[x]).0 by {
                if x < evs.len() {
                    assert(evs2[x] == evs[x]);
                    let i = choose|i: int| 0 <= i < o0.len() && key_of(#[trigger] o0[i]) == evs[x].0;
                    assert(key_of(out@[i]) == key_of(o0[i]));
                } else {
                    assert(key_of(out@[p as int]) == evs2[x].0);
                }
            }
            assert forall|i: int, j: int| 0 <= i < j < out@.len() implies key_lt(key_of(#[trigger] out@[i]), key_of(#[trigger] out@[j])) by {
                assert(key_of(out@[i]) == key_of(o0[i]));
                assert(key_of(out@[j]) == key_of(o0[j]));
            }
        }
    } else {
        proof {
            if p < o0.len() {
                lemma_compare_key_props(key_of(o0[p as int]), k);
            }
            assert(!names_key(evs, k)) by {
                if names_key(evs, k) {
                    let e = choose|e: int| 0 <= e < evs.len() && (#[trigger] evs[e]).0 == k;
                    let i = choose|i: int| 0 <= i < o0.len() && key_of(#[trigger] o0[i]) == evs[e].0;
                    if i < p {
                        assert(key_lt(key_of(o0[i]), k));
                        lemma_compare_key_props(key_of(o0[i]), k);
                    } else if i == p {
                    } else {
                        assert(key_lt(key_of(o0[p as int]), key_of(o0[i])));
                        lemma_compare_key_props(key_of(o0[p as int]), k);
                        lemma_key_lt_trans(k, key_of(o0[p as int]), key_of(o0[i]));
                        lemma_compare_key_props(k, key_of(o0[i]));
                    }
                }
            }
            lemma_unnamed_empty(evs, k);
        }
        let mut needles: Vec<(String, String)> = Vec::new();
        let mut addresses: Vec<(String, String)> = Vec::new();
        match src {
            SourceArg::Touch => {},
            SourceArg::Needle(t, n) => {
                needles.push((t.clone(), n.clone()));
            },
            SourceArg::Address(q, a) => {
                addresses.push((q.clone(), a.clone()));
            },
        }
        let f = FileSources {
            owner: owner.clone(),
            repo: repo.clone(),
            path: path.clone(),
            needles,
            addresses,
        };
        out.insert(p, f);
        proof {
            assert(key_of(out@[p as int]) == k);
            match arg_view(src) {
                SourceV::Needle(t, n) => {
                    assert(pairs_view(out@[p as int].needles@) =~= seq![(t, n)]);
                    assert(pairs_view(out@[p as int].addresses@) =~= Seq::<(Seq<char>, Seq<char>)>::empty());
                    assert(seq![(t, n)] =~= Seq::<(Seq<char>, Seq<char>)>::empty().push((t, n)));
                },
                SourceV::Address(q, a) => {
                    assert(pairs_view(out@[p as int].addresses@) =~= seq![(q, a)]);
                    assert(pairs_view(out@[p as int].needles@) =~= Seq::<(Seq<char>, Seq<char>)>::empty());
                    assert(seq![(q, a)] =~= Seq::<(Seq<char>, Seq<char>)>::empty().push((q, a)));
                },
                SourceV::Touch => {
                    assert(pairs_view(out@[p as int].needles@) =~= Seq::<(Seq<char>, Seq<char>)>::empty());
                    assert(pairs_view(out@[p as int].addresses@) =~= Seq::<(Seq<char>, Seq<char>)>::empty());
                },
            }
            assert forall|i: int| 0 <= i < out@.len() && i != p implies key_of(#[trigger] out@[i]) != k && (if i < p {
                out@[i] == o0[i]
            } else {
                out@[i] == o0[i - 1]
            }) by {
                if i < p {
                    assert(out@[i] == o0[i]);
                    lemma_compare_key_props(key_of(o0[i]), k);
                } else {
                    assert(out@[i] == o0[i - 1]);
                    if i - 1 > p {
                        assert(key_lt(key_of(o0[p as int]), key_of(o0[i - 1])));
                        lemma_key_lt_trans(k, key_of(o0[p as int]), key_of(o0[i - 1]));
                    }
                    lemma_compare_key_props(k, key_of(o0[i - 1]));
                }
            }
            assert forall|i: int, j: int| 0 <= i < j < out@.len() implies key_lt(key_of(#[trigger] out@[i]), key_of(#[trigger] out@[j])) by {
                if j < p {
                } else if j == p {
                } else if i < p {
                    if j - 1 > p {
                        assert(key_lt(key_of(o0[p as int]), key_of(o0[j - 1])));
                        lemma_key_lt_trans(k, key_of(o0[p as int]), key_of(o0[j - 1]));
                    }
                    lemma_key_lt_trans(key_of(o0[i]), k, key_of(o0[j - 1]));
                } else if i == p {
                    if j - 1 > p {
                        assert(key_lt(key_of(o0[p as int]), key_of(o0[j - 1])));
                        lemma_key_lt_trans(k, key_of(o0[p as int]), key_of(o0[j - 1]));
                    }
                } else {
                }
            }
            assert forall|x: int| 0 <= x < evs2.len() implies exists|i: int| 0 <= i < out@.len() && key_of(#[trigger] out@[i]) == (#[trigger] evs2[x]).0 by {
                if x < evs.len() {
                    assert(evs2[x] == evs[x]);
                    let i = choose|i: int| 0 <= i < o0.len() && key_of(#[trigger] o0[i]) == evs[x].0;
                    if i < p {
                        assert(key_of(out@[i]) == key_of(o0[i]));
                    } else {
                        assert(key_of(out@[i + 1]) == key_of(o0[i]));
                    }
                } else {
                    assert(key_of(out@[p as int]) == evs2[x].0);
                }
            }
        }
    }
}

/// The files that the matched repositories' evidence points at, once
/// each, ordered by `(owner, repo, path)`, with the needles and addresses
/// that point at each in the order they were found.
pub fn collect_matched(repos: &Vec<RepoMatch>) -> (res: Vec<FileSources>)
    ensures
        gathers(res@, all_events(repos@)),
{
    let mut out: Vec<FileSources> = Vec::new();
    let ghost mut evs: Seq<Event> = Seq::empty();
    let mut i: usize = 0;
    while i < repos.len()
        invariant
            i <= repos@.len(),
            evs == all_events(repos@.take(i as int)),
            gathers(out@, evs),
        decreases repos@.len() - i,
    {
        let r = &repos[i];
        let ghost o = r.owner@;
        let ghost rp = r.repo@;
        let ghost base = evs;
        let mut j: usize = 0;
        while j < r.hits.len()
            invariant
                j <= r.hits@.len(),
                evs == base + hits_events(o, rp, r.hits@.take(j as int)),
                o == r.owner@,
                rp == r.repo@,
                gathers(out@, evs),
            decreases r.hits@.len() - j,
        {
            let h = &r.hits[j];
            let ghost mid = evs;
            let mut k: usize = 0;
            while k < h.files.len()
                invariant
                    k <= h.files@.len(),
                    evs == mid + term_hit_events(o, rp, *h).take(k as int),
                    o == r.owner@,
                    rp == r.repo@,
                    gathers(out@, evs),
                decreases h.files@.len() - k,
            {
                let fm = &h.files[k];
                add_event(&mut out, &r.owner, &r.repo, &fm.path, SourceArg::Needle(&h.term, &fm.matched_needle), Ghost(evs));
                proof {
                    let ev = ((o, rp, fm.path@), SourceV::Needle(h.term@, fm.matched_needle@));
                    assert(term_hit_events(o, rp, *h).take(k + 1) =~= term_hit_events(o, rp, *h).take(k as int).push(ev));
                    evs = evs.push(ev);
                }
                k = k + 1;
            }
            proof {
                assert(term_hit_events(o, rp, *h).take(h.files@.len() as int) =~= term_hit_events(o, rp, *h));
                assert(r.hits@.take(j + 1).drop_last() =~= r.hits@.take(j as int));
                assert(r.hits@.take(j + 1).last() == *h);
            }
            j = j + 1;
        }
        proof {
            assert(r.hits@.take(r.hits@.len() as int) =~= r.hits@);
        }
        let ghost base2 = evs;
        let mut m: usize = 0;
        while m < r.match_hits.len()
            invariant
                m <= r.match_hits@.len(),
                evs == base2 + match_hits_events(o, rp, r.match_hits@.take(m as int)),
                o == r.owner@,
                rp == r.repo@,
                gathers(out@, evs),
            decreases r.match_hits@.len() - m,
        {
            let mh = &r.match_hits[m];
            let ghost mid = evs;
            let mut f: usize = 0;
            while f < mh.files.len()
                invariant
                    f <= mh.files@.len(),
                    evs == mid + match_files_events(o, rp, mh.predicate@, mh.files@.take(f as int)),
                    o == r.owner@,
                    rp == r.repo@,
                    gathers(out@, evs),
                decreases mh.files@.len() - f,
            {
                let mf = &mh.files[f];
                let ghost inner = evs;
                add_event(&mut out, &r.owner, &r.repo, &mf.path, SourceArg::Touch, Ghost(evs));
                proof {
                    evs = evs.push(((o, rp, mf.path@), SourceV::Touch));
                }
                let mut a: usize = 0;
                while a < mf.addresses.len()
                    invariant
                        a <= mf.addresses@.len(),
                        evs == inner + match_file_events(o, rp, mh.predicate@, *mf).take(1 + a as int),
                        o == r.owner@,
                        rp == r.repo@,
                        gathers(out@, evs),
                    decreases mf.addresses@.len() - a,
                {
                    add_event(
                        &mut out,
                        &r.owner,
                        &r.repo,
                        &mf.path,
                        SourceArg::Address(&mh.predicate, &mf.addresses[a]),
                        Ghost(evs),
                    );
                    proof {
                        let ev = ((o, rp, mf.path@), SourceV::Address(mh.predicate@, mf.addresses@[a as int]@));
                        assert(match_file_events(o, rp, mh.predicate@, *mf).take(1 + a as int + 1) =~= match_file_events(
                            o,
                            rp,
                            mh.predicate@,
                            *mf,
                        ).take(1 + a as int).push(ev));
                        evs = evs.push(ev);
                    }
                    a = a + 1;
                }
                proof {
                    assert(match_file_events(o, rp, mh.predicate@, *mf).take(1 + mf.addresses@.len() as int) =~= match_file_events(
                        o,
                        rp,
                        mh.predicate@,
                        *mf,
                    ));
                    assert(mh.files@.take(f + 1).drop_last() =~= mh.files@.take(f as int));
                    assert(mh.files@.take(f + 1).last() == *mf);
                }
                f = f + 1;
            }
            proof {
                assert(mh.files@.take(mh.files@.len() as int) =~= mh.files@);
                assert(r.match_hits@.take(m + 1).drop_last() =~= r.match_hits@.take(m as int));
                assert(r.match_hits@.take(m + 1).last() == *mh);
            }
            m = m + 1;
        }
        proof {
            assert(r.match_hits@.take(r.match_hits@.len() as int) =~= r.match_hits@);
            assert(repos@.take(i + 1).drop_last() =~= repos@.take(i as int));
            assert(repos@.take(i + 1).last() == *r);
        }
        i = i + 1;
    }
    proof {
        assert(repos@.take(repos@.len() as int) =~= repos@);
    }
    out
}

} // verus!
